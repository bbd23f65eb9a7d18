use msbg::channel::Scalar;
use msbg::multires::blockinfo::{
    cell_is_fluid, BlockFlags, BlockInfoStore, CELL_AIR, CELL_BLK_BORDER, CELL_COARSE_FINE,
    CELL_EMPTY_VAL, CELL_EMPTY_W, CELL_FINE_COARSE, CELL_SOLID, CELL_VOID,
};
use msbg::multires::cells::{
    init_cell_flags, init_dist_fine_coarse, propagate_dist_fine_coarse_full,
};
use msbg::multires::downsample::{downsample_channel_avg, sample_coarse};
use msbg::multires::grid::MultiresGrid;
use msbg::multires::level::{level_from_block_size, Level, LevelData};
use msbg::multires::refinement::{
    compute_block_topology, regularize_refinement_map, BlockGridDims, RefinementMap,
};
use msbg::multires::sort::{morton3, sort_block_list_morton};

const BSX: usize = 16;
const N: usize = 4096;

#[test]
fn test_bi_01_fluid_predicate() {
    assert!(cell_is_fluid(0));
    assert!(cell_is_fluid(CELL_AIR));
    assert!(!cell_is_fluid(CELL_SOLID));
    assert!(!cell_is_fluid(CELL_VOID));
    assert!(!cell_is_fluid(CELL_SOLID | CELL_VOID));
}

#[test]
fn test_bi_02_empty_val_composition() {
    assert!(!cell_is_fluid(CELL_EMPTY_VAL));
    assert_eq!(CELL_EMPTY_VAL & CELL_VOID, CELL_VOID);
    assert_eq!(CELL_EMPTY_VAL & CELL_EMPTY_W, CELL_EMPTY_W);
}

#[test]
fn test_bi_03_flag_bits_unique() {
    let bits = [
        BlockFlags::HAS_AIR,
        BlockFlags::DOM_BORDER,
        BlockFlags::COARSE_FINE,
        BlockFlags::FINE_COARSE,
        BlockFlags::EMPTY,
        BlockFlags::NO_FLUID,
        BlockFlags::ONLY_FLUID,
        BlockFlags::BOUNDARY_ZONE,
        BlockFlags::HAS_UNDEFINED,
        BlockFlags::SLOW,
        BlockFlags::TMP_MARK,
        BlockFlags::FIXED,
        BlockFlags::EXISTS,
        BlockFlags::UNIFORM_EMPTY,
        BlockFlags::HAS_DEFINED,
        BlockFlags::CUTS_SOLID,
    ];
    let mut seen = 0u16;
    for b in bits {
        assert_eq!(b & seen, 0, "block flag bit {b:#x} collides");
        seen |= b;
    }
    assert_eq!(seen, u16::MAX, "block flags should span all 16 bits");
}

#[test]
fn test_bi_04_flag_helpers() {
    let mut f = BlockFlags(0);
    assert!(!f.contains(BlockFlags::EXISTS));
    f.set(BlockFlags::EXISTS);
    assert!(f.contains(BlockFlags::EXISTS));
    f.set(BlockFlags::FINE_COARSE);
    assert!(f.is_res_border());
    f.reset(BlockFlags::FINE_COARSE);
    assert!(!f.is_res_border());
    assert!(f.contains(BlockFlags::EXISTS));
}

#[test]
fn test_bi_05_store_init_coarsest() {
    let store = BlockInfoStore::new(8, 3);
    assert_eq!(store.level0.len(), 8);
    assert_eq!(store.level0, vec![2u8; 8]);
    assert_eq!(store.flags.len(), 3);
    assert!(store.flags.iter().all(|f| f.iter().all(|&x| x == BlockFlags(0))));
}

#[test]
fn test_bi_06_effective_level_caps_at_level_mg() {
    let mut store = BlockInfoStore::new(4, 3);
    store.level0[0] = 0;
    store.level0[1] = 1;
    store.level0[2] = 2;
    assert_eq!(store.level(0, 0), 0);
    assert_eq!(store.level(0, 1), 1);
    assert_eq!(store.level(0, 2), 2);
    assert_eq!(store.level(1, 0), 1);
    assert_eq!(store.level(1, 2), 2);
    assert_eq!(store.level(2, 1), 2);
}

#[test]
fn flags_of_one_block_and_level_change_alone() {
    let mut store = BlockInfoStore::new(3, 2);
    store.flags_mut(1, 1).set(BlockFlags::SLOW);
    assert_eq!(store.flags(1, 1), BlockFlags(BlockFlags::SLOW));
    assert_eq!(store.flags(1, 0), BlockFlags::default());
    assert_eq!(store.flags(0, 1), BlockFlags(0));
}

#[test]
fn test_morton_01_zero() {
    assert_eq!(morton3(0, 0, 0), 0);
}

#[test]
fn test_morton_02_unit_axes() {
    assert_eq!(morton3(1, 0, 0), 0b001);
    assert_eq!(morton3(0, 1, 0), 0b010);
    assert_eq!(morton3(0, 0, 1), 0b100);
    assert_eq!(morton3(1, 1, 1), 0b111);
}

#[test]
fn test_morton_03_bijective_low_bits() {
    for x in 0..8u32 {
        for y in 0..8u32 {
            for z in 0..8u32 {
                let code = morton3(x, y, z);
                assert_eq!(code & 0b111_111_111, code, "low bits collide");
            }
        }
    }
}

#[test]
fn morton_codes_are_distinct() {
    let mut codes = Vec::new();
    for x in 0..8u32 {
        for y in 0..8u32 {
            for z in 0..8u32 {
                codes.push(morton3(x, y, z));
            }
        }
    }
    codes.sort_unstable();
    assert_eq!(codes, (0..512).collect::<Vec<_>>());
    assert_eq!(morton3(5, 3, 1), 0b001_010_111 & 0b111 | 0b010_000 | 0b001_000_000);
}

#[test]
fn test_morton_04_sort_groups_coarse_first() {
    let dims = BlockGridDims::new(4, 4, 4);
    let mut levels = vec![0u8; dims.n_blocks];
    levels[21] = 1;
    let mut blocks: Vec<u32> = vec![];
    blocks.push(21);
    for bz in 2..4 {
        for by in 2..4 {
            for bx in 2..4 {
                blocks.push((bx + by * 4 + bz * 16) as u32);
            }
        }
    }
    sort_block_list_morton(&mut blocks, &dims, &levels, 2);
    assert_eq!(blocks[0], 21, "coarse block should precede its fine children");
}

// With one level the order is that of the block coordinates' interleaved bits.
#[test]
fn blocks_sort_along_the_z_curve() {
    let dims = BlockGridDims::new(4, 4, 4);
    let levels = vec![0u8; dims.n_blocks];
    let mut blocks: Vec<u32> = (0..64u32).rev().collect();
    sort_block_list_morton(&mut blocks, &dims, &levels, 3);
    assert_eq!(blocks[..8], [0, 1, 4, 5, 16, 17, 20, 21]);
    let mut all = blocks.clone();
    all.sort_unstable();
    assert_eq!(all, (0..64u32).collect::<Vec<_>>());
}

fn dims() -> BlockGridDims {
    BlockGridDims::new(4, 4, 4)
}

#[test]
fn test_ref_01_regularize_uniform_unchanged() {
    let d = dims();
    let mut map = vec![0u8; d.n_blocks];
    regularize_refinement_map(&mut map, &d, 3);
    assert_eq!(map, vec![0u8; d.n_blocks]);

    let mut map = vec![2u8; d.n_blocks];
    regularize_refinement_map(&mut map, &d, 3);
    assert_eq!(map, vec![2u8; d.n_blocks]);
}

#[test]
fn test_ref_02_single_fine_block() {
    let d = dims();
    let mut map = vec![1u8; d.n_blocks];
    map[21] = 0;
    regularize_refinement_map(&mut map, &d, 3);

    let mut store = BlockInfoStore::new(d.n_blocks, 3);
    let topo = compute_block_topology(&mut store, &RefinementMap::new(map), &d, 3, None);

    assert_eq!(store.level0[21], 0);
    assert!(store.flags(21, 0).contains(BlockFlags::FINE_COARSE));
    assert!(!store.flags(21, 0).contains(BlockFlags::COARSE_FINE));
    assert_eq!(topo.blocks_fine_coarse[0], vec![21]);

    assert_eq!(store.level0[63], 1);
    assert!(!store.flags(63, 0).is_res_border());
}

#[test]
fn test_ref_03_regularize_large_jump() {
    let d = dims();
    let mut map = vec![2u8; d.n_blocks];
    map[21] = 0;
    regularize_refinement_map(&mut map, &d, 3);

    let mut store = BlockInfoStore::new(d.n_blocks, 3);
    compute_block_topology(&mut store, &RefinementMap::new(map.clone()), &d, 3, None);

    for bid in 0..d.n_blocks {
        let (bx, by, bz) = d.coords(bid);
        for dz in -1i32..=1 {
            for dy in -1i32..=1 {
                for dx in -1i32..=1 {
                    let (bx2, by2, bz2) = (bx as i32 + dx, by as i32 + dy, bz as i32 + dz);
                    if !d.in_range(bx2, by2, bz2) || (dx == 0 && dy == 0 && dz == 0) {
                        continue;
                    }
                    let bid2 = bx2 as usize + by2 as usize * d.nx + bz2 as usize * d.nxy;
                    let diff = (map[bid] as i32 - map[bid2] as i32).abs();
                    assert!(diff <= 1, "level jump {diff} at {bid}->{bid2}");
                }
            }
        }
    }
}

#[test]
fn test_ref_04_dom_border() {
    let d = dims();
    let map = vec![0u8; d.n_blocks];
    let mut store = BlockInfoStore::new(d.n_blocks, 3);
    compute_block_topology(&mut store, &RefinementMap::new(map), &d, 3, None);
    assert!(store.flags(0, 0).contains(BlockFlags::DOM_BORDER));
    assert!(store.flags(d.n_blocks - 1, 0).contains(BlockFlags::DOM_BORDER));
    assert!(!store.flags(21, 0).contains(BlockFlags::DOM_BORDER));
}

#[test]
fn test_ref_05_small_level_counts() {
    let d = dims();
    let mut map = vec![0u8; d.n_blocks];
    regularize_refinement_map(&mut map, &d, 1);
    regularize_refinement_map(&mut map, &d, 2);
    assert_eq!(map, vec![0u8; d.n_blocks]);
}

#[test]
fn test_ref_06_idempotent() {
    let d = dims();
    let mut map = vec![0u8; d.n_blocks];
    regularize_refinement_map(&mut map, &d, 3);
    let once = map.clone();
    regularize_refinement_map(&mut map, &d, 3);
    assert_eq!(map, once);
}

// The staircase around a fine block is the coarsest that is legal: the level grows by one with each
// step away from it.
#[test]
fn regularized_levels_are_the_distance_to_the_island() {
    let d = BlockGridDims::new(7, 7, 7);
    let mut map = vec![3u8; d.n_blocks];
    let center = 3 + 3 * 7 + 3 * 49;
    map[center] = 0;
    regularize_refinement_map(&mut map, &d, 4);
    for bid in 0..d.n_blocks {
        let (x, y, z) = d.coords(bid);
        let dist = [x, y, z].iter().map(|&c| (c as i32 - 3).abs()).max().unwrap();
        assert_eq!(map[bid] as i32, dist, "block {bid}");
    }
    let once = map.clone();
    regularize_refinement_map(&mut map, &d, 4);
    assert_eq!(map, once);
}

// Given flags stay, and a border has a fine side and a coarse side.
#[test]
fn topology_keeps_given_flags() {
    let d = dims();
    let mut map = vec![1u8; d.n_blocks];
    map[21] = 0;
    let mut given = vec![BlockFlags(0); d.n_blocks];
    given[5] = BlockFlags(BlockFlags::EXISTS | BlockFlags::SLOW);
    given[21] = BlockFlags(BlockFlags::EXISTS);
    let mut store = BlockInfoStore::new(d.n_blocks, 2);
    let topo = compute_block_topology(&mut store, &RefinementMap::new(map), &d, 2, Some(&given));
    assert_eq!(topo.n_act_blocks, 2);
    assert!(store.flags(5, 0).contains(BlockFlags::SLOW));
    assert!(store.flags(5, 0).contains(BlockFlags::COARSE_FINE));
    assert!(store.flags(21, 0).contains(BlockFlags::FINE_COARSE));
    assert_eq!(store.flags(5, 1), BlockFlags(0));
    assert!(topo.blocks_fine_coarse[1].is_empty());
}

#[test]
fn test_grid_01_create_dims() {
    let g = MultiresGrid::create("t", 64, 64, 64, 16, 3, 6);
    assert_eq!(g.n_levels, 3);
    assert_eq!(g.dims.nx, 4);
    assert_eq!(g.dims.n_blocks, 64);
    assert_eq!(g.levels[0].bsx(), 16);
    assert_eq!(g.levels[0].sx(), 64);
    assert_eq!(g.levels[1].bsx(), 8);
    assert_eq!(g.levels[1].sx(), 32);
    assert_eq!(g.levels[2].bsx(), 4);
    assert_eq!(g.levels[2].sx(), 16);
    assert_eq!(g.levels[0].nx(), g.levels[2].nx());
}

#[test]
fn grid_levels_share_the_block_grid() {
    let g = MultiresGrid::create("t", 64, 32, 16, 16, 4, 6);
    assert_eq!((g.dims.nx, g.dims.ny, g.dims.nz, g.dims.n_blocks), (4, 2, 1, 8));
    assert_eq!(g.levels.len(), 4);
    for (l, lv) in g.levels.iter().enumerate() {
        assert_eq!(lv.bsx(), 16 >> l);
        assert_eq!((lv.sx(), lv.sy(), lv.sz()), (64 >> l, 32 >> l, 16 >> l));
        assert_eq!((lv.nx(), lv.ny(), lv.nz()), (4, 2, 1));
        for b in 0..8 {
            assert_eq!(g.block_info.flags(b, l), BlockFlags(0));
        }
    }
    assert_eq!(g.block_info.level0, vec![3; 8]);
}

#[test]
fn test_grid_02_uniform_refinement_map() {
    let mut g = MultiresGrid::create("t", 64, 64, 64, 16, 3, 6);
    let mut map = RefinementMap::uniform(g.dims.n_blocks, 0);
    let topo = g.set_refinement_map(&mut map);
    assert_eq!(topo.blocks_fine_coarse[0], Vec::<usize>::new());
    for bid in 0..g.dims.n_blocks {
        assert_eq!(g.block_level(bid), 0);
    }
}

#[test]
fn test_grid_03_fine_island_flags() {
    let mut g = MultiresGrid::create("t", 64, 64, 64, 16, 3, 6);
    let mut map = RefinementMap::uniform(g.dims.n_blocks, 1);
    map.levels[21] = 0;
    g.set_refinement_map(&mut map);
    assert_eq!(g.block_level(21), 0);
    assert!(g.block_info.flags(21, 0).contains(BlockFlags::FINE_COARSE));
}

#[test]
fn levels_come_by_block_size() {
    let l = level_from_block_size(4, 8, 12, 16);
    assert_eq!((l.bsx(), l.sx(), l.sy(), l.sz()), (4, 8, 12, 16));
    assert_eq!((l.nx(), l.ny(), l.nz()), (2, 3, 4));
    assert!(matches!(level_from_block_size(32, 32, 32, 32), Level::B32(_)));
    assert!(matches!(level_from_block_size(1, 2, 2, 2), Level::B1(_)));
}

fn s(v: f32) -> Scalar {
    Scalar(v.to_bits())
}

fn f(v: Scalar) -> f32 {
    f32::from_bits(v.0)
}

fn mean(c: [Scalar; 8]) -> Scalar {
    let sum: f32 = c.iter().map(|&v| f(v)).sum();
    s(sum * 0.125)
}

fn coarse_voxel(coarse: &LevelData<8, 512>, x: usize, y: usize, z: usize) -> f32 {
    f(sample_coarse::<8, 512>(coarse, (x * 2) as i32, (y * 2) as i32, (z * 2) as i32))
}

/// Fills all fine blocks with `value` of block and voxel, and downsamples.
fn downsampled(
    sx: usize,
    sy: usize,
    sz: usize,
    value: impl Fn(usize, usize, usize, usize, usize) -> f32,
) -> MultiresGrid {
    let mut g = MultiresGrid::create("t", sx, sy, sz, 16, 2, 6);
    let (l0, l1) = g.levels.split_at_mut(1);
    let fine = match &mut l0[0] {
        Level::B16(f) => f,
        _ => unreachable!(),
    };
    let coarse = match &mut l1[0] {
        Level::B8(c) => c,
        _ => unreachable!(),
    };
    let nx = fine.nx;
    for bid in 0..fine.n_blocks {
        fine.ensure_block(bid);
        for v in 0..N {
            let (x, y, z) = (v % BSX, v / BSX % BSX, v / BSX / BSX);
            fine.set_density(bid, v, s(value(bid, nx, x, y, z)));
        }
    }
    downsample_channel_avg::<16, 4096, 8, 512, _>(coarse, fine, &mean);
    g
}

fn coarse_of(g: &MultiresGrid) -> &LevelData<8, 512> {
    match &g.levels[1] {
        Level::B8(c) => c,
        _ => unreachable!(),
    }
}

#[test]
fn test_ds_01_constant_field_exact() {
    let g = downsampled(32, 32, 32, |_, _, _, _, _| 0.5);
    for z in 0..16 {
        for y in 0..16 {
            for x in 0..16 {
                assert!((coarse_voxel(coarse_of(&g), x, y, z) - 0.5).abs() < 1e-6);
            }
        }
    }
}

#[test]
fn test_ds_02_linear_gradient() {
    let g = downsampled(32, 16, 16, |bid, nx, x, _, _| ((bid % nx) * BSX + x) as f32);
    for x in 0..16 {
        assert!((coarse_voxel(coarse_of(&g), x, 0, 0) - (2.0 * x as f32 + 0.5)).abs() < 1e-6);
    }
}

#[test]
fn test_ds_03_coarse_sample_matches_downsample() {
    let g = downsampled(32, 16, 16, |bid, nx, x, y, z| {
        let gx = (bid % nx) * BSX + x;
        let gy = (bid / nx) * BSX + y;
        (gx * gy + z) as f32
    });
    let coarse = coarse_of(&g);
    for cz in 0..8i32 {
        for cy in 0..8i32 {
            for cx in 0..16i32 {
                let got = f(sample_coarse::<8, 512>(coarse, cx * 2, cy * 2, cz * 2));
                let expect = coarse_voxel(coarse, cx as usize, cy as usize, cz as usize);
                assert_eq!(got, expect);
                let (x, y, z) = (cx as usize, cy as usize, cz as usize);
                let bid = x / 8 + y / 8 * 2;
                let vid = x % 8 + y % 8 * 8 + z % 8 * 64;
                assert_eq!(got, f(coarse.density(bid, vid)));
            }
        }
    }
}

#[test]
fn test_ds_04_out_of_domain_clamps() {
    let mut g = MultiresGrid::create("t", 16, 16, 16, 16, 2, 6);
    let coarse = match &mut g.levels[1] {
        Level::B8(c) => c,
        _ => unreachable!(),
    };
    coarse.ensure_block(0);
    coarse.set_density(0, 0, s(7.0));
    coarse.set_density(0, 511, s(9.0));
    assert_eq!(f(sample_coarse::<8, 512>(coarse, -3, -3, -3)), 7.0);
    assert_eq!(f(sample_coarse::<8, 512>(coarse, 100, 100, 100)), 9.0);
}

#[test]
fn level_blocks_come_into_being_on_demand() {
    let mut l: LevelData<4, 64> = LevelData::new(8, 4, 4);
    assert_eq!(l.n_blocks, 2);
    assert!(!l.is_value_block(1));
    assert!(l.block(1).is_none());
    assert_eq!(f(l.density(1, 5)), 0.0);
    l.ensure_faces(1);
    assert!(l.is_value_block(1));
    assert!(l.block(1).unwrap().density.is_none());
    assert!(l.block(1).unwrap().faces.is_some());
    l.set_density(1, 5, s(2.0));
    assert_eq!(f(l.density(1, 5)), 2.0);
    assert_eq!(f(l.density(1, 6)), 0.0);
    assert_eq!(l.active_block_ids(), vec![1]);
}

/// A grid of 3 by 3 by 2 blocks at levels 0 and 1, and its topology.
fn two_levels() -> (BlockGridDims, RefinementMap, BlockInfoStore, Vec<BlockFlags>) {
    let d = BlockGridDims::new(3, 3, 2);
    let mut levels = vec![0u8; d.n_blocks];
    for b in [0, 4, 5, 11, 17] {
        levels[b] = 1;
    }
    let mut given = vec![BlockFlags(BlockFlags::EXISTS); d.n_blocks];
    given[3] = BlockFlags(0);
    let map = RefinementMap::new(levels);
    let mut store = BlockInfoStore::new(d.n_blocks, 2);
    compute_block_topology(&mut store, &map, &d, 2, Some(&given));
    (d, map, store, given)
}

fn expected_cell_flags(
    d: &BlockGridDims,
    map: &RefinementMap,
    store: &BlockInfoStore,
    present: bool,
    bid: usize,
    bsx: usize,
    v: [usize; 3],
) -> u16 {
    let (bx, by, bz) = d.coords(bid);
    let toward = |v: usize, k: usize, n: usize| -> i32 {
        if v == 0 {
            if k > 0 { -1 } else { 0 }
        } else if v == bsx - 1 && k + 1 < n {
            1
        } else {
            0
        }
    };
    let s = [toward(v[0], bx, d.nx), toward(v[1], by, d.ny), toward(v[2], bz, d.nz)];
    let mut f = 0;
    if v.iter().any(|&k| k == 0 || k == bsx - 1) {
        f |= CELL_BLK_BORDER;
    }
    if store.flags(bid, 0).is_res_border() {
        for mask in 1..8 {
            let t = [0, 1, 2].map(|k| if mask >> k & 1 == 1 { s[k] } else { 0 });
            if t == [0, 0, 0] {
                continue;
            }
            let other = d.id(
                (bx as i32 + t[0]) as usize,
                (by as i32 + t[1]) as usize,
                (bz as i32 + t[2]) as usize,
            );
            if map.levels[other] > map.levels[bid] {
                f |= CELL_FINE_COARSE;
            }
            if map.levels[other] < map.levels[bid] {
                f |= CELL_COARSE_FINE;
            }
        }
    }
    if !present {
        f |= CELL_VOID;
    }
    f
}

fn check_cell_flags<const B: usize, const M: usize>(given: bool) {
    let (d, map, store, flags) = two_levels();
    for level in 0..2 {
        let mut lv: LevelData<B, M> = LevelData::new(3 * B, 3 * B, 2 * B);
        let block_flags = if given { Some(&flags) } else { None };
        init_cell_flags(&mut lv, level, &map, &d, &store, block_flags);
        for bid in 0..d.n_blocks {
            assert_eq!(lv.is_value_block(bid), map.levels[bid] as usize == level);
            let Some(block) = lv.block(bid) else { continue };
            for vid in 0..M {
                let v = [vid % B, vid / B % B, vid / (B * B)];
                let want =
                    expected_cell_flags(&d, &map, &store, given && bid != 3, bid, B, v);
                assert_eq!(block.cell_flags[vid].0, want, "block {bid} voxel {v:?}");
            }
        }
    }
}

#[test]
fn cell_flags_tell_borders_and_transitions() {
    check_cell_flags::<4, 64>(true);
    check_cell_flags::<4, 64>(false);
    check_cell_flags::<2, 8>(true);
    check_cell_flags::<1, 1>(true);
}

#[test]
fn inner_and_edge_voxels_of_a_fine_block() {
    let (d, map, store, flags) = two_levels();
    let mut lv: LevelData<4, 64> = LevelData::new(12, 12, 8);
    init_cell_flags(&mut lv, 0, &map, &d, &store, Some(&flags));
    let block = lv.block(1).unwrap();
    assert_eq!(block.cell_flags[1 + 4 + 16].0, 0);
    assert_eq!(block.cell_flags[1 + 4].0, CELL_BLK_BORDER);
    assert_eq!(block.cell_flags[4 + 16].0, CELL_BLK_BORDER | CELL_FINE_COARSE);
    assert_eq!(lv.block(3).unwrap().cell_flags[1 + 4 + 16].0, CELL_VOID);
}

/// The distance of a voxel centre to the nearest coarser neighbour block.
fn expected_dist(
    d: &BlockGridDims,
    map: &RefinementMap,
    bid: usize,
    bsx: usize,
    v: [usize; 3],
    dtrans: f32,
) -> u16 {
    let (bx, by, bz) = d.coords(bid);
    let own = [bx, by, bz];
    let mut best = f32::INFINITY;
    for other in d.neighbors(bid) {
        if map.levels[other] <= map.levels[bid] {
            continue;
        }
        let (ox, oy, oz) = d.coords(other);
        let mut d2 = 0.0;
        for (k, o) in [ox, oy, oz].into_iter().enumerate() {
            let p = (own[k] * bsx + v[k]) as f32 + 0.5;
            let (lo, hi) = ((o * bsx) as f32, ((o + 1) * bsx) as f32);
            let dk = (lo - p).max(0.0).max(p - hi);
            d2 += dk * dk;
        }
        best = best.min(d2);
    }
    (best.sqrt().min(dtrans) * 1024.0) as u16
}

fn check_dist<const B: usize, const M: usize>(dtrans: usize) {
    let (d, map, store, _) = two_levels();
    let mut lv: LevelData<B, M> = LevelData::new(3 * B, 3 * B, 2 * B);
    lv.ensure_density(8);
    init_dist_fine_coarse(&mut lv, dtrans, &map, &d, &store);
    for bid in 0..d.n_blocks {
        let interface = store.flags(bid, 0).contains(BlockFlags::FINE_COARSE);
        assert_eq!(lv.is_value_block(bid), interface || bid == 8);
        let Some(block) = lv.block(bid) else { continue };
        assert_eq!(block.density.is_some(), bid == 8);
        for vid in 0..M {
            let v = [vid % B, vid / B % B, vid / (B * B)];
            let want = expected_dist(&d, &map, bid, B, v, dtrans as f32);
            assert_eq!(block.dist_fine_coarse[vid].0, want, "block {bid} voxel {v:?}");
        }
    }
}

#[test]
fn distances_to_the_coarser_side() {
    check_dist::<8, 512>(6);
    check_dist::<4, 64>(6);
    check_dist::<4, 64>(1);
    check_dist::<2, 8>(6);
    check_dist::<1, 1>(6);
    check_dist::<16, 4096>(25);
}

#[test]
fn blocks_beside_the_interface_get_the_full_distance() {
    let d = BlockGridDims::new(5, 1, 1);
    let map = RefinementMap::new(vec![0, 0, 0, 1, 1]);
    let mut store = BlockInfoStore::new(5, 2);
    compute_block_topology(&mut store, &map, &d, 2, None);
    let mut lv: LevelData<4, 64> = LevelData::new(20, 4, 4);
    init_dist_fine_coarse(&mut lv, 6, &map, &d, &store);
    assert_eq!(lv.active_block_ids(), vec![2]);
    propagate_dist_fine_coarse_full(&mut lv, 0, 6, &d, &store);
    assert_eq!(lv.active_block_ids(), vec![1, 2]);
    assert!(lv.block(1).unwrap().dist_fine_coarse.iter().all(|q| q.0 == 6144));
    assert_eq!(lv.block(2).unwrap().dist_fine_coarse[3].0, 512);
    assert_eq!(lv.block(2).unwrap().dist_fine_coarse[0].0, 3584);
}
