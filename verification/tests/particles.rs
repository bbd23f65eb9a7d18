use msbg::blockpool::BlockPool;
use msbg::channel::{Density, Scalar};
use msbg::io::ply::{
    load_vertices, numbers_fit, read_vertices, vertex_of, PlyEncoding, PlyError, PlyHeader,
    PlyNumber, PlyVertex,
};
use msbg::math::gather::Dequant;
use msbg::multires::halo::HaloBlock;
use msbg::particles::active::active_blocks;
use msbg::particles::dims::{clip_range, BlockBox, GridDims};
use msbg::particles::finalize::finalize;
use msbg::particles::sort::{
    bucket_by_block, instance_count, place, Bucketed, Candidate, Placed,
};
use msbg::particles::splat::{commit, stage, splat, SplatPlan, VoxelBox, Window};
use msbg::particles::surface::{
    load_cloud, plan_surface, reconstruct_and_smooth, reconstruct_surface, SurfaceError,
};
use msbg::solver::PdeParams;
use msbg::sparse_grid::{BlockKind, SparseGrid};
use ply_rs::ply::{Addable, ElementDef, PropertyDef, PropertyType, ScalarType};

const BSX: usize = 16;
const N: usize = 4096;
const R_SCAN: f32 = 4.0;
const R_PARTICLE: f32 = 2.0;
const NB_DIST: f32 = 2.0;

fn dims(s: usize) -> GridDims {
    GridDims::new(s, s, s, 16)
}

fn footprint(p: &[f32; 3], d: &GridDims) -> BlockBox {
    let r = R_SCAN / d.bsx as f32;
    let lo = |v: f32| (v / d.bsx as f32 - r).trunc() as i32;
    let hi = |v: f32| (v / d.bsx as f32 + r).trunc() as i32;
    BlockBox {
        x1: lo(p[0]),
        x2: hi(p[0]),
        y1: lo(p[1]),
        y2: hi(p[1]),
        z1: lo(p[2]),
        z2: hi(p[2]),
    }
}

fn active(positions: &[[f32; 3]], d: &GridDims) -> Vec<usize> {
    let boxes: Vec<BlockBox> = positions.iter().map(|p| footprint(p, d)).collect();
    active_blocks(&boxes, d)
}

#[test]
fn active_01_center_particle_single_block() {
    assert_eq!(active(&[[8.0, 8.0, 8.0]], &dims(64)), vec![0]);
}

// Only the blocks that are reached cost memory, however many the grid has.
#[test]
fn active_blocks_of_a_vast_grid() {
    let s = 1usize << 24;
    let d = dims(s);
    assert_eq!(d.n_blocks(), 1 << 60);
    let last = s as i32 / 16 - 1;
    let corner = BlockBox { x1: last, x2: last + 9, y1: last, y2: last, z1: last - 1, z2: last };
    let n = 1usize << 20;
    let want = vec![n * n * (n - 1) - 1, n * n * n - 1];
    assert_eq!(active_blocks(&vec![corner, corner], &d), want);
    let c = Candidate { inside: true, x: 5, y: s as i32 - 1, z: 0, footprint: corner };
    let p = plan_surface(&vec![c], &d);
    assert_eq!((p.active, p.particle_blocks), (want, vec![n * (n - 1)]));
}

#[test]
fn active_02_boundary_particle_two_blocks() {
    assert_eq!(active(&[[15.5, 8.0, 8.0]], &dims(64)), vec![0, 1]);
}

#[test]
fn active_03_domain_corner_clipping() {
    assert_eq!(active(&[[0.1, 0.1, 0.1]], &dims(64)), vec![0]);
}

#[test]
fn active_04_far_corner_clipping() {
    let d = dims(64);
    let a = active(&[[63.0, 63.0, 63.0]], &d);
    assert_eq!(d.coords(a[0]), (3, 3, 3));
}

#[test]
fn active_05_empty_is_empty() {
    assert!(active(&[], &dims(64)).is_empty());
}

#[test]
fn active_06_dedup() {
    assert_eq!(active(&[[8.0, 8.0, 8.0], [9.0, 9.0, 9.0]], &dims(64)), vec![0]);
}

#[test]
fn active_07_asymmetric_dims() {
    let d = GridDims::new(32, 48, 16, 16);
    assert_eq!(active(&[[17.0, 33.0, 8.0]], &d), vec![2, 3, 4, 5]);
}

#[test]
fn active_08_u64_scale_bids() {
    let d = GridDims::new(1 << 21, 1 << 21, 1 << 21, 16);
    let a = active(&[[(1 << 21) as f32 - 8.0; 3]], &d);
    assert!(!a.is_empty());
    assert!(a.iter().any(|&b| b > u32::MAX as usize));
}

#[test]
fn active_09_deterministic_across_thread_counts() {
    let d = dims(64);
    let positions: Vec<[f32; 3]> = (0..4096)
        .map(|i| {
            [(i % 64) as f32 + 0.5, ((i / 64) % 64) as f32 + 0.5, (i / 4096) as f32 + 0.5]
        })
        .collect();
    let single = rayon::ThreadPoolBuilder::new().num_threads(1).build().unwrap();
    let multi = rayon::ThreadPoolBuilder::new().num_threads(8).build().unwrap();
    let a1 = single.install(|| active(&positions, &d));
    let a8 = multi.install(|| active(&positions, &d));
    assert_eq!(a1, a8);
}

fn lcg(rng: &mut u32) -> u32 {
    *rng = rng.wrapping_mul(1664525).wrapping_add(1013904223);
    *rng >> 8
}

#[test]
fn active_10_sparse_equals_dense_reference() {
    let mut rng = 0x1234_5678u32;
    let d = dims(128);
    let positions: Vec<[f32; 3]> = (0..5000)
        .map(|_| {
            [
                (lcg(&mut rng) % 128) as f32,
                (lcg(&mut rng) % 128) as f32,
                (lcg(&mut rng) % 128) as f32,
            ]
        })
        .collect();
    let mut merged: Vec<usize> = Vec::new();
    for p in &positions {
        let b = footprint(p, &d);
        for bz in b.z1.max(0)..=b.z2.min(d.nz as i32 - 1) {
            for by in b.y1.max(0)..=b.y2.min(d.ny as i32 - 1) {
                for bx in b.x1.max(0)..=b.x2.min(d.nx as i32 - 1) {
                    merged.push((bx as usize) + (by as usize) * d.nx + (bz as usize) * d.nxy);
                }
            }
        }
    }
    merged.sort_unstable();
    merged.dedup();
    assert_eq!(active(&positions, &d), merged);
}

#[test]
fn footprints_are_clipped_to_the_grid() {
    assert_eq!(clip_range(-3, 2, 5), (0, 3));
    assert_eq!(clip_range(1, 9, 5), (1, 4));
    assert_eq!(clip_range(-9, -1, 5).1, 0);
    assert_eq!(clip_range(5, 9, 5).1, 0);
    assert_eq!(clip_range(3, 2, 5).1, 0);
    let d = dims(32);
    let b = BlockBox { x1: -5, x2: 0, y1: 1, y2: 7, z1: 3, z2: 9 };
    assert!(active_blocks(&vec![b], &d).is_empty());
    assert_eq!(active_blocks(&vec![BlockBox { z1: 1, ..b }], &d), vec![6]);
}

#[test]
fn grid_sizes_fit_together() {
    let d = GridDims::new(17, 33, 5, 16);
    assert_eq!((d.nx, d.ny, d.nz, d.nxy, d.n_blocks()), (2, 3, 1, 6, 6));
    assert_eq!(d.sxyz_max(), 33);
    assert_eq!(d.sxyz_min(), 5);
    assert_eq!(d.block_of(16, 32, 4), 5);
    assert_eq!(d.coords(5), (1, 2, 0));
}

struct Cfg {
    n_instances: usize,
    scale: f32,
}

fn align24(x: f64) -> f32 {
    let scale = 16_777_215.0 / 32_768.0;
    ((scale * x + 0.5).floor() / scale) as f32
}

/// The candidates of all instances of the base points, with their positions.
fn candidates(
    base: &[[f32; 3]],
    bbox: &[f32; 3],
    span_max: f32,
    d: &GridDims,
    cfg: &Cfg,
) -> (Vec<[f32; 3]>, Vec<Candidate>) {
    let base_scale = 1.0 / span_max;
    let inst_scale = d.sxyz_min() as f32 * cfg.scale * base_scale;
    let max = d.sxyz_max() as f32;
    let size = [d.sx, d.sy, d.sz];
    let mut positions = Vec::new();
    let mut cands = Vec::new();
    for i in 0..instance_count(cfg.n_instances, base.len()) {
        let at = |k: usize| 0.2 * max + 0.6 * max * base_scale * (base[i][k] - bbox[k]);
        let origin = [at(0), at(1), at(2)];
        for b in base {
            let p = [0, 1, 2].map(|k| origin[k] + inst_scale * (b[k] - bbox[k]));
            let inside = (0..3)
                .all(|k| p[k] >= align24(0.005) && p[k] <= align24(size[k] as f64 - 0.005));
            positions.push(p);
            cands.push(Candidate {
                inside,
                x: p[0] as i32,
                y: p[1] as i32,
                z: p[2] as i32,
                footprint: footprint(&p, d),
            });
        }
    }
    (positions, cands)
}

fn placed(base: &[[f32; 3]], bbox: &[f32; 3], span: f32, d: &GridDims, cfg: &Cfg) -> Placed {
    place(&candidates(base, bbox, span, d, cfg).1, d)
}

#[test]
fn place_01_single_instance_counts() {
    let base = [[0.0, 0.0, 0.0], [1.0, 0.0, 0.0], [0.5, 1.0, 0.5], [0.25, 0.25, 0.75]];
    let cfg = Cfg { n_instances: 1, scale: 0.5 };
    let p = placed(&base, &[0.0, 0.0, 0.0], 1.0, &dims(64), &cfg);
    assert_eq!(p.kept.len(), base.len());
    assert_eq!(p.bids.len(), base.len());
}

#[test]
fn place_02_domain_edge_clipping() {
    let base = [[0.0, 0.0, 0.0], [0.999, 0.0, 0.0]];
    let cfg = Cfg { n_instances: 1, scale: 100.0 };
    let p = placed(&base, &[0.0, 0.0, 0.0], 1.0, &dims(64), &cfg);
    assert!(p.kept.len() < base.len());
}

#[test]
fn place_03_zero_span_does_not_panic() {
    let base = [[1.0, 2.0, 3.0], [1.0, 2.0, 3.0]];
    let cfg = Cfg { n_instances: 1, scale: 0.5 };
    let p = placed(&base, &[1.0, 2.0, 3.0], 0.0, &dims(64), &cfg);
    assert!(p.kept.is_empty());
}

#[test]
fn place_04_zero_instances_means_all() {
    let base = [[0.0, 0.0, 0.0]];
    let cfg = Cfg { n_instances: 0, scale: 0.5 };
    let p = placed(&base, &[0.0, 0.0, 0.0], 1.0, &dims(64), &cfg);
    assert_eq!(p.kept.len(), 1);
    assert_eq!(instance_count(0, 7), 7);
    assert_eq!(instance_count(3, 7), 3);
}

// A candidate is dropped for its bounds or for its voxel, and only the kept ones count.
#[test]
fn only_candidates_in_the_domain_are_kept() {
    let d = dims(32);
    let b = BlockBox { x1: 1, x2: 1, y1: 0, y2: 0, z1: 0, z2: 0 };
    let c = Candidate { inside: true, x: 20, y: 3, z: 3, footprint: b };
    let cands = vec![
        Candidate { inside: false, ..c },
        c,
        Candidate { x: -1, ..c },
        Candidate { y: 32, ..c },
        Candidate { z: 31, ..c },
    ];
    let p = place(&cands, &d);
    assert_eq!(p.kept, vec![1, 4]);
    assert_eq!(p.bids, vec![1, 5]);
    assert_eq!(p.active, vec![1]);
}

fn by_x(a: &[f32; 3], b: &[f32; 3]) -> std::cmp::Ordering {
    a[0].partial_cmp(&b[0]).unwrap()
}

#[test]
fn bucket_01_contiguous_sorted_per_block() {
    let positions = vec![[0.0f32; 3], [1.0; 3], [2.0; 3], [3.0; 3]];
    let b = bucket_by_block(positions, vec![1, 0, 1, 0]);
    assert_eq!(b.particle_blocks, vec![0, 1]);
    assert_eq!(b.starts, vec![0, 2, 4]);
    let mut b0 = b.positions[0..2].to_vec();
    b0.sort_unstable_by(by_x);
    assert_eq!(b0, vec![[1.0; 3], [3.0; 3]]);
    let mut b1 = b.positions[2..4].to_vec();
    b1.sort_unstable_by(by_x);
    assert_eq!(b1, vec![[0.0; 3], [2.0; 3]]);
}

#[test]
fn bucket_02_sparse_single_occupied_block() {
    let b = bucket_by_block(vec![[5.0f32; 3]], vec![3]);
    assert_eq!(b.particle_blocks, vec![3]);
    assert_eq!(b.starts, vec![0, 1]);
    assert_eq!(b.positions[0], [5.0; 3]);
}

#[test]
fn bucket_03_all_same_block() {
    let b = bucket_by_block(vec![[0.0f32; 3], [1.0; 3], [2.0; 3]], vec![0, 0, 0]);
    assert_eq!(b.particle_blocks, vec![0]);
    assert_eq!(b.starts, vec![0, 3]);
    assert_eq!(b.positions.len(), 3);
}

#[test]
fn bucket_04_empty_input() {
    let b: Bucketed<[f32; 3]> = bucket_by_block(vec![], vec![]);
    assert!(b.positions.is_empty());
    assert!(b.particle_blocks.is_empty());
    assert_eq!(b.starts, vec![0]);
}

#[test]
fn bucket_05_u64_scale_bids() {
    let bids =
        vec![u32::MAX as usize, 0usize, u32::MAX as usize + 1, 0x1_0000_0001, u32::MAX as usize];
    let positions: Vec<[f32; 3]> = bids.iter().map(|&b| [b as f32, 0.0, 0.0]).collect();
    let b = bucket_by_block(positions, bids);
    let mut expected = vec![0usize, u32::MAX as usize, u32::MAX as usize + 1, 0x1_0000_0001];
    expected.sort_unstable();
    assert_eq!(b.particle_blocks, expected);
    let idx = b.particle_blocks.iter().position(|&k| k == u32::MAX as usize).unwrap();
    assert_eq!(b.starts[idx + 1] - b.starts[idx], 2);
}

fn bucket_by_block_dense(
    positions: Vec<[f32; 3]>,
    bids: Vec<usize>,
    n_blocks: usize,
) -> (Vec<[f32; 3]>, Vec<usize>, Vec<usize>) {
    let n = positions.len();
    let mut counts = vec![0usize; n_blocks];
    for &b in &bids {
        counts[b] += 1;
    }
    let mut block_start = vec![0usize; n_blocks + 1];
    let mut acc = 0usize;
    for (b, c) in counts.iter().enumerate() {
        block_start[b] = acc;
        acc += c;
    }
    block_start[n_blocks] = acc;
    let mut ordered = vec![[0.0f32; 3]; n];
    let mut cursor = block_start[..n_blocks].to_vec();
    for j in 0..n {
        let b = bids[j];
        ordered[cursor[b]] = positions[j];
        cursor[b] += 1;
    }
    let particle_blocks: Vec<usize> = (0..n_blocks).filter(|&b| counts[b] > 0).collect();
    let starts: Vec<usize> = particle_blocks
        .iter()
        .map(|&b| block_start[b])
        .chain(std::iter::once(block_start[n_blocks]))
        .collect();
    (ordered, particle_blocks, starts)
}

#[test]
fn bucket_06_sparse_equals_dense_reference() {
    let mut rng = 0x9e37_79b9u32;
    for (n, n_blocks) in [(0usize, 1usize), (1, 1), (1000, 64), (10_000, 1024)] {
        let positions: Vec<[f32; 3]> =
            (0..n).map(|i| [i as f32, (i % 7) as f32, (i % 13) as f32]).collect();
        let bids: Vec<usize> = (0..n).map(|_| (lcg(&mut rng) as usize) % n_blocks).collect();
        let dense = bucket_by_block_dense(positions.clone(), bids.clone(), n_blocks);
        let sparse = bucket_by_block(positions.clone(), bids.clone());
        assert_eq!(sparse.particle_blocks, dense.1, "particle_blocks differ at n={n}");
        assert_eq!(sparse.starts, dense.2, "starts differ at n={n}");
        for (i, &bid) in sparse.particle_blocks.iter().enumerate() {
            let (lo, hi) = (sparse.starts[i], sparse.starts[i + 1]);
            let mut sp = sparse.positions[lo..hi].to_vec();
            let mut dp = dense.0[dense.2[i]..dense.2[i + 1]].to_vec();
            sp.sort_unstable_by(by_x);
            dp.sort_unstable_by(by_x);
            assert_eq!(sp, dp, "block {bid} contents differ at n={n}");
        }
    }
}

fn setup(sx: usize, sy: usize, sz: usize) -> SparseGrid<Density, BSX, N> {
    let pool = BlockPool::<Density, BSX, N>::new(64, 64);
    SparseGrid::new("splat".into(), sx, sy, sz, Density(0), Density(u16::MAX), pool)
}

fn reach(p: &[f32; 3]) -> VoxelBox {
    let lo = |v: f32| (v - R_SCAN - 0.5).ceil() as i32;
    let hi = |v: f32| (v + R_SCAN - 0.5).floor() as i32;
    VoxelBox { x1: lo(p[0]), x2: hi(p[0]), y1: lo(p[1]), y2: hi(p[1]), z1: lo(p[2]), z2: hi(p[2]) }
}

/// The quantized squared distance of a voxel to a particle, and full beyond the radius.
fn distance(p: &[f32; 3], x: i32, y: i32, z: i32) -> Density {
    let (dx, dy, dz) =
        (x as f32 - (p[0] - 0.5), y as f32 - (p[1] - 0.5), z as f32 - (p[2] - 0.5));
    let d2 = dx * dx + (dz * dz + dy * dy);
    let max = R_SCAN * R_SCAN;
    if d2 < max {
        Density((d2 * (1.0 / max) * 65535.0).round() as u16)
    } else {
        Density(u16::MAX)
    }
}

fn min(a: Density, b: Density) -> Density {
    if a.0 < b.0 { a } else { b }
}

fn do_splat(grid: &mut SparseGrid<Density, BSX, N>, pts: &[[f32; 3]], bids: Vec<usize>) {
    let b = bucket_by_block(pts.to_vec(), bids);
    let plan = SplatPlan {
        boxes: b.positions.iter().map(reach).collect(),
        particle_blocks: b.particle_blocks,
        starts: b.starts,
        margin: R_SCAN.ceil() as usize,
    };
    let value = |i: usize, x: i32, y: i32, z: i32| distance(&b.positions[i], x, y, z);
    splat(grid, &plan, &value, &min, &min, Density(u16::MAX));
}

fn splatted(pts: &[[f32; 3]], bids: Vec<usize>) -> SparseGrid<Density, BSX, N> {
    let mut grid = setup(32, 32, 32);
    let blocks = active(pts, &GridDims::new(32, 32, 32, BSX));
    grid.ensure_blocks(&blocks);
    grid.fill_blocks(&blocks, Density(u16::MAX));
    do_splat(&mut grid, pts, bids);
    grid
}

#[test]
fn splat_01_single_particle_shape() {
    let grid = splatted(&[[8.0f32, 8.0, 8.0]], vec![0]);
    assert_eq!(grid.get_voxel(8, 8, 8), Density(3072));
    let want = ((6.75f32 / 16.0) * 65535.0).round() as u16;
    assert_eq!(grid.get_voxel(5, 8, 8), Density(want));
    assert_eq!(grid.get_voxel(1, 8, 8), Density(u16::MAX));
}

#[test]
fn splat_02_boundary_crossing_particle() {
    let pts = [[15.5f32, 8.0, 8.0]];
    assert!(active(&pts, &GridDims::new(32, 32, 32, BSX)).contains(&1));
    let grid = splatted(&pts, vec![0]);
    let want = ((1.5f32 / 16.0) * 65535.0).round() as u16;
    assert_ne!(grid.get_voxel(16, 8, 8), Density(u16::MAX));
    assert_eq!(grid.get_voxel(16, 8, 8), Density(want));
}

#[test]
fn splat_03_overlap_min() {
    let pts = [[10.0f32, 8.0, 8.0], [12.0, 8.0, 8.0]];
    let grid = splatted(&pts, vec![0, 0]);
    let forward = grid.get_voxel(10, 8, 8);
    let grid2 = splatted(&[pts[1], pts[0]], vec![0, 0]);
    assert_eq!(grid2.get_voxel(10, 8, 8), forward);
    for z in 5..12 {
        for y in 5..12 {
            for x in 5..16 {
                assert_eq!(grid2.get_voxel(x, y, z), grid.get_voxel(x, y, z));
            }
        }
    }
}

#[test]
fn splat_04_domain_corner_clip() {
    let grid = splatted(&[[0.1f32, 0.1, 0.1]], vec![0]);
    assert_ne!(grid.get_voxel(0, 0, 0), Density(u16::MAX));
}

#[test]
fn splat_05_radius_cull() {
    let grid = splatted(&[[16.0f32, 16.0, 16.0]], vec![setup(32, 32, 32).get_block_id(16, 16, 16)]);
    assert_eq!(grid.get_voxel(21, 16, 16), Density(u16::MAX));
    assert_eq!(grid.get_voxel(20, 16, 16), Density(u16::MAX));
}

#[test]
fn splat_06_quantize_endpoints() {
    let grid = splatted(&[[8.0f32, 8.0, 8.0]], vec![0]);
    assert_eq!(grid.get_voxel(8, 8, 8), Density(3072));
    let want = ((12.75f32 / 16.0) * 65535.0).round() as u16;
    assert_eq!(grid.get_voxel(4, 8, 8), Density(want));
    assert_eq!(grid.get_voxel(0, 8, 8), Density(u16::MAX));
}

// Every voxel holds the least distance to any particle, whichever blocks they are in.
#[test]
fn splat_is_the_minimum_over_all_particles() {
    let pts = [[15.9f32, 15.9, 15.9], [16.2, 14.0, 15.0], [3.0, 17.5, 30.9], [31.0, 31.0, 0.2]];
    let d = GridDims::new(32, 32, 32, BSX);
    let bids: Vec<usize> = pts
        .iter()
        .map(|p| d.block_of(p[0] as usize, p[1] as usize, p[2] as usize))
        .collect();
    let grid = splatted(&pts, bids);
    let blocks = active(&pts, &d);
    for z in 0..32 {
        for y in 0..32 {
            for x in 0..32 {
                let mut want = Density(0);
                if blocks.contains(&d.block_of(x, y, z)) {
                    want = Density(u16::MAX);
                    for p in &pts {
                        want = min(want, distance(p, x as i32, y as i32, z as i32));
                    }
                }
                assert_eq!(grid.get_voxel(x, y, z), want, "({x},{y},{z})");
            }
        }
    }
}

// Windows of blocks of the same color do not overlap, so their order does not matter.
#[test]
fn disjoint_windows_commit_in_any_order() {
    let add = |a: u32, b: u32| a + b;
    let value = |i: usize, x: i32, y: i32, z: i32| (100 * i as i32 + x + y + z) as u32 + 1;
    let boxes = vec![
        VoxelBox { x1: 0, x2: 3, y1: 0, y2: 3, z1: 0, z2: 3 },
        VoxelBox { x1: 7, x2: 9, y1: 0, y2: 9, z1: 2, z2: 9 },
    ];
    let wa = Window { x0: -1, y0: -1, z0: -1, edge: 4 };
    let wb = Window { x0: 7, y0: -1, z0: -1, edge: 4 };
    let da = stage(&value, &add, 0, &boxes, 0, 1, wa);
    let db = stage(&value, &add, 0, &boxes, 1, 2, wb);
    let make = || {
        let mut g: SparseGrid<u32, 2, 8> =
            SparseGrid::new("w".into(), 12, 3, 3, 0, 9, BlockPool::new(8, 8));
        g.ensure_blocks(&(0..g.n_blocks).collect());
        g
    };
    let (mut g, mut h) = (make(), make());
    commit(&mut g, &add, wa, &da);
    commit(&mut g, &add, wb, &db);
    commit(&mut h, &add, wb, &db);
    commit(&mut h, &add, wa, &da);
    for z in 0..3 {
        for y in 0..3 {
            for x in 0..12 {
                assert_eq!(g.get_voxel(x, y, z), h.get_voxel(x, y, z));
            }
        }
    }
    assert_eq!(g.get_voxel(2, 2, 2), 7);
    assert_eq!(g.get_voxel(8, 1, 2), 112);
    assert_eq!(g.get_voxel(5, 1, 2), 0);
}

fn to_f32(d: Density) -> f32 {
    d.0 as f32 * (1.0 / u16::MAX as f32)
}

/// Turns a splatted distance into density.
fn density(d: Density) -> Density {
    let ratio = to_f32(d);
    if ratio < 0.999 {
        let dist = (ratio * R_SCAN * R_SCAN).sqrt() - R_PARTICLE;
        let t = ((dist + R_PARTICLE) / (2.0 * R_PARTICLE + NB_DIST)).clamp(0.0, 1.0);
        Density(((1.0 - t) * 65535.0).round() as u16)
    } else {
        Density(0)
    }
}

fn get(grid: &SparseGrid<Density, BSX, N>, x: usize, y: usize, z: usize) -> f32 {
    to_f32(grid.get_voxel(x, y, z))
}

#[test]
fn finalize_01_single_particle() {
    let mut grid = setup(32, 32, 32);
    grid.set_voxel(8, 8, 8, Density(0));
    let r = 16.0f32;
    grid.set_voxel(6, 8, 8, Density(((2.5f32 * 2.5) / r * 65535.0).round() as u16));
    grid.set_voxel(4, 8, 8, Density(65468));
    finalize(&mut grid, &vec![0], &density);
    assert!((get(&grid, 8, 8, 8) - 1.0).abs() < 1e-4);
    let want = 1.0 - (0.5 + 2.0) / 6.0;
    assert!((get(&grid, 6, 8, 8) - want).abs() < 1e-4);
    let ratio = 65468.0f32 / 65535.0;
    let want = 1.0 - (ratio * r).sqrt() / 6.0;
    let got = get(&grid, 4, 8, 8);
    assert!((got - want).abs() < 1e-4, "got {} want {}", got, want);
}

#[test]
fn finalize_02_untouched_is_zero() {
    let mut grid = setup(32, 32, 32);
    grid.set_voxel(3, 3, 3, Density(u16::MAX));
    finalize(&mut grid, &vec![0], &density);
    assert_eq!(get(&grid, 3, 3, 3), 0.0);
}

#[test]
fn finalize_03_threshold_edge() {
    let mut grid = setup(32, 32, 32);
    let below = ((0.9989f32) * 65535.0).round() as u16;
    let above = ((0.9991f32) * 65535.0).round() as u16;
    grid.set_voxel(0, 0, 0, Density(below));
    grid.set_voxel(1, 0, 0, Density(above));
    finalize(&mut grid, &vec![0], &density);
    assert!(get(&grid, 0, 0, 0) > 0.0, "just below threshold is touched");
    assert_eq!(get(&grid, 1, 0, 0), 0.0, "just above threshold is zero");
}

#[test]
fn finalize_04_mixed_block_in_range() {
    let mut grid = setup(16, 16, 16);
    for z in 0..16 {
        for y in 0..16 {
            for x in 0..16 {
                let ratio = ((x + y + z) % 17) as f32 / 17.0;
                grid.set_voxel(x, y, z, Density((ratio * 65535.0).round() as u16));
            }
        }
    }
    finalize(&mut grid, &vec![0], &density);
    for z in 0..16 {
        for y in 0..16 {
            for x in 0..16 {
                let v = get(&grid, x, y, z);
                assert!((0.0..=1.0).contains(&v), "({x},{y},{z}) = {v}");
            }
        }
    }
}

#[test]
fn finalize_05_empty_active() {
    let mut grid = setup(16, 16, 16);
    finalize(&mut grid, &vec![], &density);
    assert!(grid.is_empty_block(0));
}

// ---- point clouds ------------------------------------------------------------------------------

fn sample_ply(vertices: &str) -> Vec<u8> {
    format!(
        "ply\nformat ascii 1.0\ncomment zipper output\nelement vertex {}\n\
         property float x\nproperty float y\nproperty float z\n\
         property float confidence\nproperty float intensity\n\
         element face 1\nproperty list uchar int vertex_indices\n\
         end_header\n{}",
        vertices.lines().count(),
        vertices
    )
    .into_bytes()
}

fn number(n: PlyNumber) -> f32 {
    match n {
        PlyNumber::Single(b) => f32::from_bits(b),
        PlyNumber::Double(b) => f64::from_bits(b) as f32,
        PlyNumber::Other => unreachable!(),
    }
}

fn positions(v: &[PlyVertex]) -> Vec<[f32; 3]> {
    v.iter().map(|p| [number(p.x), number(p.y), number(p.z)]).collect()
}

fn bbox(v: &[[f32; 3]]) -> ([f32; 3], [f32; 3]) {
    let (mut lo, mut hi) = ([f32::INFINITY; 3], [f32::NEG_INFINITY; 3]);
    for p in v {
        for k in 0..3 {
            lo[k] = lo[k].min(p[k]);
            hi[k] = hi[k].max(p[k]);
        }
    }
    (lo, hi)
}

#[test]
fn ply_01_happy_5_props_and_faces() {
    let l = load_vertices(&sample_ply("0.1 0.2 0.3 0.9 0.5\n-1.0 2.0 3.5 0.5 0.5\n")).unwrap();
    let p = positions(&l);
    assert_eq!(p.len(), 2);
    assert_eq!(p[0], [0.1, 0.2, 0.3]);
    assert_eq!(p[1], [-1.0, 2.0, 3.5]);
    let (lo, hi) = bbox(&p);
    assert_eq!(lo, [-1.0, 0.2, 0.3]);
    assert_eq!(hi, [0.1, 2.0, 3.5]);
}

#[test]
fn ply_02_scientific_notation() {
    let l = load_vertices(&sample_ply("1e-3 2.5e1 -4e-2 0.5 0.5\n")).unwrap();
    assert_eq!(positions(&l)[0], [1e-3, 25.0, -4e-2]);
}

#[test]
fn ply_03_empty_vertex_element() {
    let l = load_vertices(&sample_ply("")).unwrap();
    assert!(l.is_empty());
    let (lo, hi) = bbox(&positions(&l));
    assert!(lo[0] > hi[0]);
    assert_eq!(load_cloud(&sample_ply("")), Err(SurfaceError::NoVertices));
}

#[test]
fn ply_04_no_face_element() {
    let ply = "ply\nformat ascii 1.0\nelement vertex 1\nproperty float x\n\
               property float y\nproperty float z\nend_header\n1 2 3\n";
    let l = load_vertices(&ply.as_bytes().to_vec()).unwrap();
    assert_eq!(positions(&l), vec![[1.0, 2.0, 3.0]]);
}

#[test]
fn ply_05_crlf_line_endings() {
    let ply = "ply\r\nformat ascii 1.0\r\nelement vertex 1\r\nproperty float x\r\n\
               property float y\r\nproperty float z\r\nend_header\r\n4 5 6\r\n";
    let l = load_vertices(&ply.as_bytes().to_vec()).unwrap();
    assert_eq!(positions(&l), vec![[4.0, 5.0, 6.0]]);
}

#[test]
fn ply_06_missing_end_header_errors() {
    let ply = "ply\nformat ascii 1.0\nelement vertex 1\nproperty float x\n";
    assert!(load_vertices(&ply.as_bytes().to_vec()).is_err());
    assert_eq!(load_vertices(&ply.as_bytes().to_vec()), Err(PlyError::Header));
}

#[test]
fn ply_07_truncated_payload_errors() {
    assert!(load_vertices(&sample_ply("1 2 3\n4 5\n")).is_err());
}

#[test]
fn ply_08_malformed_float_errors() {
    assert!(load_vertices(&sample_ply("1 2 notanumber 0.5 0.5\n")).is_err());
    assert_eq!(
        load_vertices(&sample_ply("1 2 notanumber 0.5 0.5\n")),
        Err(PlyError::Payload)
    );
}

#[test]
fn ply_09_no_vertex_element_errors() {
    let ply =
        "ply\nformat ascii 1.0\nelement face 1\nproperty list uchar int v\nend_header\n";
    assert!(load_vertices(&ply.as_bytes().to_vec()).is_err());
    assert_eq!(load_vertices(&ply.as_bytes().to_vec()), Err(PlyError::NoVertexElement));
}

#[test]
fn ply_10_magic_number_missing() {
    let ply = "format ascii 1.0\nend_header\n";
    assert!(load_vertices(&ply.as_bytes().to_vec()).is_err());
    assert_eq!(
        load_cloud(&ply.as_bytes().to_vec()),
        Err(SurfaceError::Ply(PlyError::Header))
    );
}

const XYZ: &str = "property float x\nproperty double y\nproperty uchar c\nproperty float z\n";

#[test]
fn ply_ends_before_all_vertices() {
    let mut ply = sample_ply("1 2 3 0 0\n4 5 6 0 0\n");
    let end = ply.len() - "4 5 6 0 0\n".len();
    ply.truncate(end);
    assert_eq!(load_vertices(&ply), Err(PlyError::UnexpectedEnd));
}

#[test]
fn ply_line_that_is_no_text() {
    let mut ply = sample_ply("1 2 3 0 0\n");
    let n = ply.len();
    ply[n - 3] = 0xff;
    assert_eq!(load_vertices(&ply), Err(PlyError::Payload));
}

#[test]
fn ply_binary_little_endian() {
    let mut ply =
        format!("ply\nformat binary_little_endian 1.0\nelement vertex 2\n{XYZ}end_header\n")
            .into_bytes();
    for (x, y, z) in [(1.5f32, -2.25f64, 4.0f32), (8.0, 16.0, -0.5)] {
        ply.extend(x.to_le_bytes());
        ply.extend(y.to_le_bytes());
        ply.push(7);
        ply.extend(z.to_le_bytes());
    }
    let l = load_vertices(&ply).unwrap();
    assert_eq!(l[0].y, PlyNumber::Double((-2.25f64).to_bits()));
    assert_eq!(positions(&l), vec![[1.5, -2.25, 4.0], [8.0, 16.0, -0.5]]);
    ply.pop();
    assert_eq!(load_vertices(&ply), Err(PlyError::UnexpectedEnd));
    ply.truncate(ply.len() - 16);
    assert_eq!(load_vertices(&ply), Err(PlyError::UnexpectedEnd));
}

// A list that the bytes end in, or whose length is no integer, is malformed.
#[test]
fn ply_binary_lists() {
    let header = |length: &str, n: usize| {
        format!(
            "ply\nformat binary_little_endian 1.0\nelement vertex {n}\n\
             property list {length} uchar tags\nproperty float x\nend_header\n"
        )
        .into_bytes()
    };
    let mut ply = header("uchar", 2);
    ply.extend([2, 7, 7]);
    ply.extend(1.5f32.to_le_bytes());
    ply.push(0);
    ply.extend(2.5f32.to_le_bytes());
    let l = load_vertices(&ply).unwrap();
    assert_eq!(positions(&l), vec![[1.5, 0.0, 0.0], [2.5, 0.0, 0.0]]);
    let mut short = header("uchar", 1);
    short.extend([2, 7]);
    assert_eq!(load_vertices(&short), Err(PlyError::Payload));
    short.extend([7, 0]);
    assert_eq!(load_vertices(&short), Err(PlyError::UnexpectedEnd));
    let mut float = header("float", 1);
    float.extend([0; 16]);
    assert_eq!(load_vertices(&float), Err(PlyError::Payload));
}

#[test]
fn ply_binary_big_endian() {
    let mut ply =
        format!("ply\nformat binary_big_endian 1.0\nelement vertex 2\n{XYZ}end_header\n")
            .into_bytes();
    for (x, y, z) in [(1.5f32, -2.25f64, 4.0f32), (8.0, 16.0, -0.5)] {
        ply.extend(x.to_be_bytes());
        ply.extend(y.to_be_bytes());
        ply.push(7);
        ply.extend(z.to_be_bytes());
    }
    let l = load_vertices(&ply).unwrap();
    assert_eq!(positions(&l), vec![[1.5, -2.25, 4.0], [8.0, 16.0, -0.5]]);
    ply.pop();
    assert_eq!(load_vertices(&ply), Err(PlyError::UnexpectedEnd));
}

fn ascii_ply(properties: &str, row: &str) -> Vec<u8> {
    format!("ply\nformat ascii 1.0\nelement vertex 1\n{properties}end_header\n{row}\n").into_bytes()
}

#[test]
fn ply_coordinates_come_where_the_header_puts_them() {
    let first = "property float confidence\nproperty float x\nproperty float y\nproperty float z\n";
    let l = load_vertices(&ascii_ply(first, "9 1 2 3")).unwrap();
    assert_eq!(positions(&l), vec![[1.0, 2.0, 3.0]]);
    let mixed = "property float z\nproperty uchar red\nproperty float x\n\
                 property list uchar int tags\nproperty float y\nproperty float w\n";
    let l = load_vertices(&ascii_ply(mixed, "3 255 1 2 70 80 2 9")).unwrap();
    assert_eq!(positions(&l), vec![[1.0, 2.0, 3.0]]);
    assert_eq!(load_vertices(&ascii_ply(mixed, "3 255 1 2 70 80")), Err(PlyError::Payload));
    let part = "property float z\nproperty float y\n";
    let l = load_vertices(&ascii_ply(part, "4 5")).unwrap();
    assert_eq!(positions(&l), vec![[0.0, 5.0, 4.0]]);
}

// Numbers of a line are taken in single precision whatever their type, and nothing behind the last
// coordinate is looked at.
#[test]
fn ply_line_types_and_tail() {
    let typed = "property int x\nproperty double y\nproperty uchar z\nproperty float w\n";
    for row in ["1 2.5 300 4", "1 2.5 300", "1 2.5 300 4 5"] {
        let l = load_vertices(&ascii_ply(typed, row)).unwrap();
        assert_eq!(positions(&l), vec![[1.0, 2.5, 300.0]]);
    }
    assert_eq!(load_vertices(&ascii_ply(typed, "1 2.5")), Err(PlyError::Payload));
    assert_eq!(load_vertices(&ascii_ply(typed, "1 2.5 300 w")), Err(PlyError::Payload));
}

// A number in the header that does not fit is a malformed header; digits elsewhere do no harm.
#[test]
fn ply_header_numbers_beyond_64_bits() {
    let header = |line: &str| {
        format!(
            "ply\nformat ascii 1.0\n{line}\nelement vertex 1\nproperty float x\n\
             property float y\nproperty float z\nend_header\n1 2 3\n"
        )
        .into_bytes()
    };
    let big = "99999999999999999999999";
    for bad in [
        format!("element face {big}"),
        format!("format ascii {big}.0"),
        format!("format binary_big_endian 1.{big}"),
    ] {
        assert!(!numbers_fit(&header(&bad)), "{bad}");
        assert_eq!(load_vertices(&header(&bad)), Err(PlyError::Header));
    }
    for good in [
        format!("comment {big}"),
        format!("obj_info {big}"),
        "element face 00000000000000000000000000000000007".to_string(),
        format!("element e{big} 0"),
        "element face 18446744073709551615".to_string(),
    ] {
        assert!(numbers_fit(&header(&good)), "{good}");
        assert_eq!(positions(&load_vertices(&header(&good)).unwrap()), vec![[1.0, 2.0, 3.0]]);
    }
    let mut late = header("comment");
    late.extend(format!("element x {big}\n").bytes());
    assert!(numbers_fit(&late));
    assert!(load_vertices(&late).is_ok());
}

#[test]
fn vertex_takes_numbers_by_name() {
    let one = PlyNumber::Single(1.0f32.to_bits());
    let two = PlyNumber::Double(2.0f64.to_bits());
    let values = vec![
        ("z".to_string(), two),
        ("q".to_string(), one),
        ("x".to_string(), one),
        ("y".to_string(), PlyNumber::Other),
    ];
    assert_eq!(vertex_of(&values), PlyVertex { x: one, y: PlyNumber::Single(0), z: two });
}

#[test]
fn vertices_are_read_as_the_header_says() {
    let bytes = b"1 2 3\n4 5 6\n7 8 9\n".to_vec();
    let mut def = ElementDef::new("vertex".to_string());
    for name in ["x", "y", "z"] {
        let kind = PropertyType::Scalar(ScalarType::Float);
        def.properties.add(PropertyDef::new(name.to_string(), kind));
    }
    let header = PlyHeader { encoding: PlyEncoding::Ascii, element: Some((2, def)), payload: 6 };
    let l = read_vertices(&bytes, &header).unwrap();
    assert_eq!(positions(&l), vec![[4.0, 5.0, 6.0], [7.0, 8.0, 9.0]]);
    let none = PlyHeader { encoding: PlyEncoding::Ascii, element: None, payload: 6 };
    assert_eq!(read_vertices(&bytes, &none), Err(PlyError::NoVertexElement));
}

#[test]
fn surface_of_four_points() {
    let ply = "ply\nformat ascii 1.0\nelement vertex 4\nproperty float x\nproperty float y\n\
               property float z\nend_header\n0 0 0\n1 0 0\n0 1 0\n0 0 1\n";
    let base = positions(&load_cloud(&ply.as_bytes().to_vec()).unwrap());
    let d = dims(64);
    let cfg = Cfg { n_instances: 0, scale: 0.01 };
    let (pos, cands) = candidates(&base, &[0.0; 3], 1.0, &d, &cfg);
    let p = plan_surface(&cands, &d);
    assert_eq!(p.order.len(), 16);
    let plan = SplatPlan {
        boxes: p.order.iter().map(|&c| reach(&pos[c])).collect(),
        particle_blocks: p.particle_blocks,
        starts: p.starts,
        margin: 4,
    };
    let value = |i: usize, x: i32, y: i32, z: i32| distance(&pos[p.order[i]], x, y, z);
    let build = |pool: BlockPool<Density, BSX, N>| {
        reconstruct_surface(
            "surface".to_string(),
            &d,
            Density(0),
            Density(u16::MAX),
            pool,
            &p.active,
            &plan,
            &value,
            &min,
            &min,
            &density,
        )
    };
    let grid = build(BlockPool::new(8, 64)).unwrap();
    for z in 0..64 {
        for y in 0..64 {
            for x in 0..64 {
                let mut want = Density(0);
                if p.active.contains(&d.block_of(x, y, z)) {
                    let mut near = Density(u16::MAX);
                    for q in &pos {
                        near = min(near, distance(q, x as i32, y as i32, z as i32));
                    }
                    want = density(near);
                }
                assert_eq!(grid.get_voxel(x, y, z), want);
            }
        }
    }
    for b in 0..grid.n_blocks {
        let allocated = matches!(grid.block_kind(b), BlockKind::Allocated(_));
        assert_eq!(allocated, p.active.contains(&b));
    }
    let short = build(BlockPool::new(1, 1));
    assert!(matches!(short, Err(SurfaceError::PoolExhausted)));
    assert!(build(BlockPool::new(p.active.len() + 1, 1)).is_err());
    assert!(build(BlockPool::new(p.active.len() + 2, 1)).is_ok());
}

#[derive(Clone, Copy, Default)]
struct Level(u16);

impl Dequant<Level> for Density {
    fn spec_dequant(self) -> Level {
        Level(self.0)
    }

    fn dequant(self) -> Level {
        Level(self.0)
    }
}

// Smoothing runs over the active blocks of the surface, and over nothing else.
#[test]
fn surface_is_smoothed_where_it_is_active() {
    let d = dims(64);
    let p = [20.0f32, 20.0, 20.0];
    let active = active(&[p], &d);
    let plan = SplatPlan {
        boxes: vec![reach(&p)],
        particle_blocks: vec![d.block_of(20, 20, 20)],
        starts: vec![0, 1],
        margin: 4,
    };
    let value = |_: usize, x: i32, y: i32, z: i32| distance(&p, x, y, z);
    let params = PdeParams { dt: Scalar(5), iterations: 3, do_constr_zero_one: true };
    let kernel = |h: &HaloBlock<Level, BSX, 18>, dt: Scalar, clamp: bool| -> Vec<Density> {
        assert!(dt == Scalar(5) && clamp);
        (0..N)
            .map(|v| {
                let (x, y, z) = (v % 16, v / 16 % 16, v / 256);
                Density(h.get(x + 1, y + 1, z + 1).0 / 2 + h.get(x, y + 1, z + 1).0 / 4)
            })
            .collect()
    };
    let build = |pool: BlockPool<Density, BSX, N>| {
        reconstruct_and_smooth(
            "surface".to_string(),
            &d,
            Density(0),
            Density(u16::MAX),
            pool,
            &active,
            &plan,
            &value,
            &min,
            &min,
            &density,
            &params,
            &kernel,
        )
    };
    let grid = build(BlockPool::new(8, 64)).unwrap();
    let plain = reconstruct_surface(
        "surface".to_string(),
        &d,
        Density(0),
        Density(u16::MAX),
        BlockPool::<Density, BSX, N>::new(8, 64),
        &active,
        &plan,
        &value,
        &min,
        &min,
        &density,
    )
    .unwrap();
    assert_eq!(active, vec![d.block_of(20, 20, 20)]);
    for z in 16..32 {
        for y in 16..32 {
            let mut row: Vec<u16> =
                (16..32).map(|x| plain.get_voxel(x, y, z).0).collect();
            for _ in 0..3 {
                let left: Vec<u16> = std::iter::once(0).chain(row.iter().copied()).collect();
                row = row.iter().zip(left).map(|(c, l)| c / 2 + l / 4).collect();
            }
            for x in 16..32 {
                assert_eq!(grid.get_voxel(x, y, z).0, row[x - 16], "({x},{y},{z})");
            }
        }
    }
    assert_eq!(grid.get_voxel(40, 20, 20), Density(0));
    assert!(matches!(build(BlockPool::new(2, 1)), Err(SurfaceError::PoolExhausted)));
}
