use msbg::blockpool::BlockPool;
use msbg::channel::{Density, Scalar, Vec3, Velocity};
use msbg::math::boundary::{resolve_axis, BoundaryCondition, GridAlignment, Interpolation};
use msbg::math::gather::{gather_map, Dequant};
use msbg::math::sample::{is_half_shifted, Sampler, SamplerVec3};
use msbg::multires::halo::{HaloBlock, HaloBlockPool};
use msbg::multires::iterator::BlockIterator;
use msbg::sparse_grid::{BlockKind, BlockRef, SparseGrid};

const BSX: usize = 16;
const N: usize = 4096;
const HSX: usize = 18;
const NEUMANN: BoundaryCondition = BoundaryCondition::Neumann;
const CORNER: GridAlignment = GridAlignment::Corner;
const CLAMP: BoundaryCondition = BoundaryCondition::Clamp;
const LINEAR: Interpolation = Interpolation::Linear;
const CUBIC: Interpolation = Interpolation::CubicBSpline;

/// A number in the sampling domain.
#[derive(Clone, Copy, Debug, Default, PartialEq)]
struct F(f32);

impl Dequant<F> for f32 {
    fn spec_dequant(self) -> F {
        F(self)
    }

    fn dequant(self) -> F {
        F(self)
    }
}

impl Dequant<F> for Density {
    fn spec_dequant(self) -> F {
        self.dequant()
    }

    fn dequant(self) -> F {
        F(self.0 as f32 * (1.0 / u16::MAX as f32))
    }
}

fn setup_grid(sx: usize, sy: usize, sz: usize) -> SparseGrid<f32, BSX, N> {
    let pool = BlockPool::new(16, 16);
    SparseGrid::new("test_grid".to_string(), sx, sy, sz, 0.0, 1.0, pool)
}

#[test]
fn test_grd_01_normal_api_usage() {
    let mut grid = setup_grid(64, 64, 64);
    grid.set_voxel(0, 0, 0, 42.0);
    grid.set_voxel(32, 10, 5, 7.5);
    grid.set_voxel(63, 63, 63, 99.9);
    assert_eq!(grid.get_voxel(0, 0, 0), 42.0);
    assert_eq!(grid.get_voxel(32, 10, 5), 7.5);
    assert_eq!(grid.get_voxel(63, 63, 63), 99.9);
    assert_eq!(grid.get_voxel(1, 1, 1), 0.0);
}

#[test]
fn test_grd_06_state_lazy_allocation() {
    let mut grid = setup_grid(32, 32, 32);
    let bid = grid.get_block_id(5, 5, 5);
    assert!(matches!(grid.get_block(bid), BlockRef::Empty));
    assert_eq!(grid.get_voxel(5, 5, 5), 0.0);
    grid.set_voxel(5, 5, 5, 123.4);
    assert!(matches!(grid.get_block(bid), BlockRef::Allocated(_)));
    assert_eq!(grid.get_voxel(5, 5, 5), 123.4);
}

#[test]
fn test_grd_07_state_dummy_resolution() {
    let mut grid = setup_grid(32, 32, 32);
    let bid = grid.get_block_id(20, 20, 20);
    grid.blockmap[bid] = Some(grid.full_block);
    assert!(matches!(grid.get_block(bid), BlockRef::Full));
    assert_eq!(grid.get_voxel(20, 20, 20), 1.0);
    assert_eq!(grid.get_voxel(21, 25, 31), 1.0);
}

#[test]
fn test_grd_08_coordinate_mapping() {
    let grid = setup_grid(32, 32, 32);
    assert_eq!(grid.nx, 2);
    assert_eq!(grid.ny, 2);
    assert_eq!(grid.nz, 2);
    assert_eq!(grid.nxy, 4);
    assert_eq!(grid.n_blocks, 8);

    assert_eq!(grid.get_block_id(0, 0, 0), 0);
    assert_eq!(SparseGrid::<f32, BSX, N>::get_voxel_id(0, 0, 0), 0);

    assert_eq!(grid.get_block_id(15, 15, 15), 0);
    assert_eq!(SparseGrid::<f32, BSX, N>::get_voxel_id(15, 15, 15), 4095);

    assert_eq!(grid.get_block_id(16, 16, 16), 7);
    assert_eq!(SparseGrid::<f32, BSX, N>::get_voxel_id(16, 16, 16), 0);

    assert_eq!(grid.get_block_id(17, 0, 31), 5);
    assert_eq!(SparseGrid::<f32, BSX, N>::get_voxel_id(17, 0, 31), 3841);
}

#[test]
fn test_grd_09_partial_last_block() {
    let mut grid = setup_grid(17, 16, 16);
    assert_eq!(grid.nx, 2);
    assert_eq!(grid.ny, 1);
    assert_eq!(grid.nz, 1);
    assert_eq!(grid.n_blocks, 2);
    grid.set_voxel(16, 0, 0, 42.0);
    assert_eq!(grid.get_voxel(16, 0, 0), 42.0);
    grid.set_voxel(15, 0, 0, 7.0);
    assert_eq!(grid.get_voxel(15, 0, 0), 7.0);
    assert_eq!(grid.get_voxel(16, 5, 5), 0.0);
}

#[test]
fn test_grd_12_ceiling_division_asymmetric() {
    let grid = setup_grid(17, 33, 1);
    assert_eq!(grid.nx, 2);
    assert_eq!(grid.ny, 3);
    assert_eq!(grid.nz, 1);
    assert_eq!(grid.nxy, 6);
    assert_eq!(grid.n_blocks, 6);
    assert_eq!(grid.get_block_id(0, 0, 0), 0);
    assert_eq!(grid.get_block_id(16, 0, 0), 1);
    assert_eq!(grid.get_block_id(0, 16, 0), 2);
    assert_eq!(grid.get_block_id(0, 32, 0), 4);
    assert_eq!(grid.get_block_id(16, 32, 0), 5);
}

#[test]
fn test_grd_13_set_voxel_replaces_dummy_empty() {
    let mut grid = setup_grid(32, 32, 32);
    let bid = grid.get_block_id(5, 5, 5);
    grid.blockmap[bid] = Some(grid.empty_block);
    assert!(matches!(grid.get_block(bid), BlockRef::Empty));
    assert_eq!(grid.get_voxel(5, 5, 5), 0.0);
    grid.set_voxel(5, 5, 5, 123.4);
    assert!(matches!(grid.get_block(bid), BlockRef::Allocated(_)));
    assert_eq!(grid.get_voxel(5, 5, 5), 123.4);
    assert_ne!(grid.blockmap[bid], Some(grid.empty_block));
}

#[test]
fn test_grd_14_set_voxel_replaces_dummy_full() {
    let mut grid = setup_grid(32, 32, 32);
    let bid = grid.get_block_id(20, 20, 20);
    grid.blockmap[bid] = Some(grid.full_block);
    assert!(matches!(grid.get_block(bid), BlockRef::Full));
    assert_eq!(grid.get_voxel(20, 20, 20), 1.0);
    grid.set_voxel(20, 20, 20, 55.5);
    assert!(matches!(grid.get_block(bid), BlockRef::Allocated(_)));
    assert_eq!(grid.get_voxel(20, 20, 20), 55.5);
    assert_ne!(grid.blockmap[bid], Some(grid.full_block));
}

#[test]
fn test_grd_15_dummy_block_identity_and_alignment() {
    let grid = setup_grid(16, 16, 16);
    assert_ne!(grid.empty_block, grid.full_block);
    assert_ne!(grid.empty_block.as_ptr(), grid.full_block.as_ptr());
    let empty_addr = std::ptr::from_ref(grid.block_pool.block(grid.empty_block)).addr();
    let full_addr = std::ptr::from_ref(grid.block_pool.block(grid.full_block)).addr();
    assert_eq!(empty_addr % 64, 0);
    assert_eq!(full_addr % 64, 0);
    assert_ne!(empty_addr, 0);
    assert_ne!(full_addr, 0);
}

#[test]
fn test_grd_16_partial_block_coordinate_mapping() {
    let grid = setup_grid(20, 20, 20);
    assert_eq!(grid.get_block_id(19, 19, 19), 7);
    assert_eq!(SparseGrid::<f32, BSX, N>::get_voxel_id(19, 19, 19), 3 | (3 << 4) | (3 << 8));
    assert_eq!(grid.get_block_id(16, 0, 0), 1);
    assert_eq!(SparseGrid::<f32, BSX, N>::get_voxel_id(16, 0, 0), 0);
}

#[test]
fn test_grd_17_blockmap_length_matches_n_blocks() {
    for &(sx, sy, sz) in &[(1, 1, 1), (16, 16, 16), (17, 1, 33), (100, 50, 7)] {
        let grid = setup_grid(sx, sy, sz);
        assert_eq!(
            grid.blockmap.len(),
            grid.n_blocks,
            "blockmap length mismatch for {}x{}x{}",
            sx,
            sy,
            sz
        );
        assert_eq!(grid.n_blocks, grid.nx * grid.ny * grid.nz);
    }
}

// A write changes one voxel and no other.
#[test]
fn write_leaves_the_other_voxels() {
    let mut g: SparseGrid<u32, 2, 8> =
        SparseGrid::new("g".to_string(), 5, 3, 4, 7, 9, BlockPool::new(4, 16));
    for z in 0..4 {
        for y in 0..3 {
            for x in 0..5 {
                assert_eq!(g.get_voxel(x, y, z), 7);
                g.set_voxel(x, y, z, (x + 10 * y + 100 * z) as u32);
            }
        }
    }
    g.set_voxel(4, 2, 3, 1);
    for z in 0..4 {
        for y in 0..3 {
            for x in 0..5 {
                let expected = if (x, y, z) == (4, 2, 3) { 1 } else { (x + 10 * y + 100 * z) as u32 };
                assert_eq!(g.get_voxel(x, y, z), expected);
            }
        }
    }
    assert_eq!(g.get_block_coords_by_id(g.get_block_id(4, 2, 3)), (2, 1, 1));
}

#[test]
fn blocks_can_be_ensured_again_on_a_spent_pool() {
    let mut g: SparseGrid<u8, 2, 8> =
        SparseGrid::new("g".to_string(), 4, 2, 2, 3, 4, BlockPool::new(1, 4));
    g.ensure_blocks(&vec![0, 1, 0]);
    g.fill_blocks(&vec![1], 6);
    g.ensure_blocks(&vec![0, 1]);
    assert_eq!(g.get_voxel(0, 0, 0), 3);
    assert_eq!(g.get_voxel(3, 1, 1), 6);
    assert!(matches!(g.block_kind(0), BlockKind::Allocated(_)));
    assert!(!g.is_empty_block(1));
}

#[test]
fn changing_the_empty_value_changes_what_empty_blocks_read() {
    let mut g = setup_grid(32, 16, 16);
    g.set_full_block(1);
    g.set_empty_value(5.0);
    assert_eq!(g.empty_value(), 5.0);
    assert_eq!(g.get_voxel(3, 3, 3), 5.0);
    assert_eq!(g.get_voxel(20, 3, 3), 1.0);
}

#[test]
fn iterator_visits_allocated_blocks_in_order() {
    let mut g = setup_grid(64, 16, 16);
    g.set_voxel(40, 0, 0, 1.0);
    g.set_voxel(1, 0, 0, 1.0);
    g.set_full_block(3);
    let mut it = BlockIterator::new(&g);
    let first = it.next().unwrap();
    assert_eq!(first.bid, 0);
    let second = it.next().unwrap();
    assert_eq!(second.bid, 2);
    assert!(it.next().is_none());
    assert_eq!(g.block_pool.block(second.data).data[8], 1.0);
}

fn scalar_trilinear(c: [f32; 8], u: f32, v: f32, w: f32) -> f32 {
    let c00 = c[0] * (1.0 - u) + c[1] * u;
    let c10 = c[2] * (1.0 - u) + c[3] * u;
    let c01 = c[4] * (1.0 - u) + c[5] * u;
    let c11 = c[6] * (1.0 - u) + c[7] * u;
    let c0 = c00 * (1.0 - v) + c10 * v;
    let c1 = c01 * (1.0 - v) + c11 * v;
    c0 * (1.0 - w) + c1 * w
}

fn interpolate_linear(g: &SparseGrid<f32, BSX, N>, x: f32, y: f32, z: f32) -> f32 {
    let (ix, iy, iz) = (x.floor(), y.floor(), z.floor());
    let blend = |c: [f32; 8]| scalar_trilinear(c, x - ix, y - iy, z - iz);
    g.interpolate_linear(ix as usize, iy as usize, iz as usize, &blend)
}

#[test]
fn test_interp_01_exact_integer_coordinates() {
    let mut grid = setup_grid(32, 32, 32);
    grid.set_voxel(5, 7, 9, 42.0);
    let v = interpolate_linear(&grid, 5.0, 7.0, 9.0);
    assert!((v - 42.0).abs() < 1e-6);
}

#[test]
fn test_interp_02_midpoint_same_block() {
    let mut grid = setup_grid(32, 32, 32);
    grid.set_voxel(4, 4, 4, 1.0);
    grid.set_voxel(5, 4, 4, 2.0);
    grid.set_voxel(4, 5, 4, 3.0);
    grid.set_voxel(5, 5, 4, 4.0);
    grid.set_voxel(4, 4, 5, 5.0);
    grid.set_voxel(5, 4, 5, 6.0);
    grid.set_voxel(4, 5, 5, 7.0);
    grid.set_voxel(5, 5, 5, 8.0);
    let expected = scalar_trilinear([1.0, 2.0, 3.0, 4.0, 5.0, 6.0, 7.0, 8.0], 0.5, 0.5, 0.5);
    let v = interpolate_linear(&grid, 4.5, 4.5, 4.5);
    assert!((v - expected).abs() < 1e-5, "got {} expected {}", v, expected);
}

#[test]
fn test_interp_03_cross_block_boundary() {
    let mut grid = setup_grid(32, 16, 16);
    grid.set_voxel(15, 0, 0, 10.0);
    grid.set_voxel(16, 0, 0, 20.0);
    let v = interpolate_linear(&grid, 15.5, 0.0, 0.0);
    assert!((v - 15.0).abs() < 1e-5);
}

#[test]
fn test_interp_04_all_corners_unit_cube() {
    let mut grid = setup_grid(16, 16, 16);
    for z in 0..2 {
        for y in 0..2 {
            for x in 0..2 {
                grid.set_voxel(x, y, z, (x + 2 * y + 4 * z) as f32);
            }
        }
    }
    let expected = 0.3 + 2.0 * 0.4 + 4.0 * 0.7;
    let v = interpolate_linear(&grid, 0.3, 0.4, 0.7);
    assert!((v - expected).abs() < 1e-5, "got {} expected {}", v, expected);
}

#[test]
fn test_interp_05_empty_region_returns_empty_value() {
    let grid = setup_grid(32, 32, 32);
    let v = interpolate_linear(&grid, 10.5, 10.5, 10.5);
    assert!((v - 0.0).abs() < 1e-6);
}

#[test]
fn test_interp_06_full_dummy_block() {
    let mut grid = setup_grid(32, 32, 32);
    let bid = grid.get_block_id(20, 20, 20);
    grid.blockmap[bid] = Some(grid.full_block);
    let v = interpolate_linear(&grid, 20.3, 21.7, 22.1);
    assert!((v - 1.0).abs() < 1e-6);
}

fn halo_at(halo: &HaloBlock<F, BSX, HSX>, x: usize, y: usize, z: usize) -> f32 {
    halo.get(x, y, z).0
}

// Every block of a grid of 3 blocks an axis holds its own id.
fn id_grid() -> SparseGrid<f32, BSX, N> {
    let pool = BlockPool::new(64, 64);
    let mut grid = SparseGrid::new("halo_test".to_string(), 48, 48, 48, 0.0, 1.0, pool);
    for bid in 0..grid.n_blocks {
        let bx = bid % grid.nx;
        let by = (bid / grid.nx) % grid.ny;
        let bz = bid / grid.nxy;
        grid.set_voxel(bx * BSX, by * BSX, bz * BSX, bid as f32);
        match grid.get_block(bid) {
            BlockRef::Allocated(b) => b.data.fill(bid as f32),
            _ => unreachable!(),
        }
    }
    grid
}

fn fill_axis(grid: &mut SparseGrid<f32, BSX, N>, f: impl Fn(usize) -> f32) {
    for z in 0..grid.sz {
        for y in 0..grid.sy {
            for x in 0..grid.sx {
                grid.set_voxel(x, y, z, f(x));
            }
        }
    }
}

#[test]
fn test_h_01_construction() {
    let halo = HaloBlock::<f32, BSX, HSX>::new();
    assert_eq!(halo.data.len(), HSX * HSX * HSX);
    assert!(halo.data.iter().all(|&v| v == 0.0));
}

#[test]
fn test_h_03_center_copy() {
    let mut grid = setup_grid(16, 16, 16);
    for z in 0..BSX {
        for y in 0..BSX {
            for x in 0..BSX {
                grid.set_voxel(x, y, z, (x + y * 16 + z * 256) as f32);
            }
        }
    }
    let mut halo = HaloBlock::<F, BSX, HSX>::new();
    halo.fill::<1, true, f32, N>(&grid, 0, NEUMANN);
    for z in 0..BSX {
        for y in 0..BSX {
            for x in 0..BSX {
                assert_eq!(halo_at(&halo, x + 1, y + 1, z + 1), (x + y * 16 + z * 256) as f32);
            }
        }
    }
}

#[test]
fn test_h_04_all_neighbors_full_fill() {
    let grid = id_grid();
    let mut halo = HaloBlock::<F, BSX, HSX>::new();
    halo.fill::<1, true, f32, N>(&grid, 13, NEUMANN);
    assert_eq!(halo_at(&halo, 1, 1, 1), 13.0);
    assert_eq!(halo_at(&halo, 0, 1, 1), 12.0);
    assert_eq!(halo_at(&halo, 17, 1, 1), 14.0);
    assert_eq!(halo_at(&halo, 1, 0, 1), 10.0);
    assert_eq!(halo_at(&halo, 1, 17, 1), 16.0);
    assert_eq!(halo_at(&halo, 1, 1, 0), 4.0);
    assert_eq!(halo_at(&halo, 1, 1, 17), 22.0);
    assert_eq!(halo_at(&halo, 0, 0, 0), 0.0);
    assert_eq!(halo_at(&halo, 17, 17, 17), 26.0);
    assert_eq!(halo_at(&halo, 0, 0, 1), 9.0);
    assert_eq!(halo_at(&halo, 0, 17, 17), 24.0);
}

#[test]
fn test_h_05_dirichlet_uses_empty() {
    let mut grid = setup_grid(16, 16, 16);
    grid.set_voxel(0, 0, 0, 42.0);
    grid.set_empty_value(7.0);
    let mut halo = HaloBlock::<F, BSX, HSX>::new();
    halo.fill::<1, true, f32, N>(&grid, 0, BoundaryCondition::Dirichlet);
    for z in 1..=BSX {
        for y in 1..=BSX {
            assert_eq!(halo_at(&halo, 0, y, z), 7.0);
        }
    }
}

#[test]
fn test_h_06_neumann_mirrors_edge() {
    let mut grid = setup_grid(16, 16, 16);
    fill_axis(&mut grid, |x| x as f32);
    let mut halo = HaloBlock::<F, BSX, HSX>::new();
    halo.fill::<1, true, f32, N>(&grid, 0, NEUMANN);
    assert_eq!(halo_at(&halo, 0, 1, 1), 0.0);
    assert_eq!(halo_at(&halo, 17, 1, 1), 15.0);
}

#[test]
fn test_h_07_domain_corner_block() {
    let mut grid = setup_grid(48, 48, 48);
    grid.set_voxel(0, 0, 0, 5.0);
    grid.set_empty_value(2.0);
    let mut halo = HaloBlock::<F, BSX, HSX>::new();
    halo.fill::<1, true, f32, N>(&grid, 0, BoundaryCondition::Dirichlet);
    assert_eq!(halo_at(&halo, 1, 1, 1), 5.0);
    assert_eq!(halo_at(&halo, 0, 1, 1), 2.0);
    assert_eq!(halo_at(&halo, 1, 0, 1), 2.0);
    assert_eq!(halo_at(&halo, 1, 1, 0), 2.0);
    assert_eq!(halo_at(&halo, 17, 1, 1), 2.0);
    assert_eq!(halo_at(&halo, 0, 0, 0), 2.0);
}

#[test]
fn test_h_08_partial_last_block() {
    let mut grid = setup_grid(17, 16, 16);
    fill_axis(&mut grid, |x| x as f32);
    let mut halo = HaloBlock::<F, BSX, HSX>::new();
    halo.fill::<1, true, f32, N>(&grid, grid.get_block_id(16, 0, 0), NEUMANN);
    assert_eq!(halo_at(&halo, 1, 1, 1), 16.0);
    assert_eq!(halo_at(&halo, 2, 1, 1), 16.0);
    assert_eq!(halo_at(&halo, 3, 1, 1), 15.0);
    assert_eq!(halo_at(&halo, 17, 1, 1), 1.0);
}

#[test]
fn test_h_09_empty_full_dummy_neighbors() {
    let mut grid = setup_grid(32, 16, 16);
    grid.set_voxel(0, 0, 0, 3.0);
    grid.blockmap[1] = Some(grid.full_block);
    grid.set_empty_value(2.0);
    let mut halo = HaloBlock::<F, BSX, HSX>::new();
    halo.fill::<1, true, f32, N>(&grid, 0, NEUMANN);
    assert_eq!(halo_at(&halo, 17, 1, 1), 1.0);
    assert_eq!(halo_at(&halo, 0, 1, 1), 3.0);
}

#[test]
fn test_h_10_faces_only_is_subset_of_full() {
    let grid = id_grid();
    let mut full = HaloBlock::<F, BSX, HSX>::new();
    full.fill::<1, true, f32, N>(&grid, 13, NEUMANN);
    let mut faces = HaloBlock::<F, BSX, HSX>::new();
    faces.fill::<1, false, f32, N>(&grid, 13, NEUMANN);
    for z in 0..HSX {
        for y in 0..HSX {
            for x in 0..HSX {
                let x_halo = x == 0 || x == BSX + 1;
                let y_halo = y == 0 || y == BSX + 1;
                let z_halo = z == 0 || z == BSX + 1;
                if x_halo && (y_halo || z_halo) {
                    assert_eq!(faces.data[z * HSX * HSX + y * HSX + x].0, 0.0);
                } else {
                    assert_eq!(
                        full.data[z * HSX * HSX + y * HSX + x],
                        faces.data[z * HSX * HSX + y * HSX + x]
                    );
                }
            }
        }
    }
}

#[test]
fn test_h_11_density_dequant() {
    let pool = BlockPool::<Density, BSX, N>::new(64, 64);
    let mut grid =
        SparseGrid::new("dens".to_string(), 32, 16, 16, Density(0), Density(u16::MAX), pool);
    for x in 0..32 {
        grid.set_voxel(x, 0, 0, Density(((x as f32 / 31.0) * u16::MAX as f32).round() as u16));
    }
    let mut halo = HaloBlock::<F, BSX, HSX>::new();
    halo.fill::<1, true, Density, N>(&grid, 0, NEUMANN);
    let v = halo_at(&halo, 16, 1, 1);
    assert!((v - 15.0 / 31.0).abs() < 1e-3, "got {v}");
}

#[test]
fn test_h_12_halo2_fill() {
    const HSX2: usize = BSX + 4;
    let grid = id_grid();
    let mut halo = HaloBlock::<F, BSX, HSX2>::new();
    halo.fill::<2, true, f32, N>(&grid, 13, NEUMANN);
    let at = |x: usize, y: usize, z: usize| halo.data[z * HSX2 * HSX2 + y * HSX2 + x].0;
    assert_eq!(at(2, 2, 2), 13.0);
    assert_eq!(at(0, 2, 2), 12.0);
    assert_eq!(at(1, 2, 2), 12.0);
    assert_eq!(at(18, 2, 2), 14.0);
    assert_eq!(at(19, 2, 2), 14.0);
    assert_eq!(at(2, 0, 2), 10.0);
    assert_eq!(at(2, 18, 2), 16.0);
    assert_eq!(at(2, 2, 0), 4.0);
    assert_eq!(at(2, 2, 18), 22.0);
    assert_eq!(at(0, 0, 0), 0.0);
    assert_eq!(at(19, 19, 19), 26.0);
}

#[test]
fn test_h_13_pool_distinct_per_thread() {
    let n_threads = rayon::current_num_threads().max(2);
    let mut pool = HaloBlockPool::<f32, BSX, HSX>::new(n_threads);
    let addresses: Vec<usize> = (0..n_threads)
        .map(|idx| std::ptr::from_ref(&pool.get_mut(idx).data[0]).addr())
        .collect();
    let mut sorted = addresses;
    sorted.sort_unstable();
    for w in sorted.windows(2) {
        assert_ne!(w[0], w[1], "two threads received the same halo buffer");
    }
}

// What one worker writes to its cube is not seen in that of another.
#[test]
fn workers_do_not_share_a_halo() {
    let mut pool = HaloBlockPool::<u8, 2, 4>::new(3);
    pool.get_mut(1).data[5] = 7;
    assert_eq!(pool.get_mut(0).data[5], 0);
    assert_eq!(pool.get_mut(1).data[5], 7);
    assert_eq!(pool.get_mut(2).data[5], 0);
}

#[test]
fn indices_resolve_by_boundary_condition() {
    for g in -40..40i32 {
        let inside = (0..=4).contains(&g);
        let clamped = g.clamp(0, 4);
        assert_eq!(resolve_axis(g, 4, CLAMP), Some(clamped));
        let dirichlet = resolve_axis(g, 4, BoundaryCondition::Dirichlet);
        assert_eq!(dirichlet, if inside { Some(g) } else { None });
        let m = resolve_axis(g, 4, NEUMANN);
        assert_eq!(m, resolve_axis(-1 - g, 4, NEUMANN));
        assert_eq!(m, resolve_axis(9 - g, 4, NEUMANN));
        assert_eq!(m, resolve_axis(g + 10, 4, NEUMANN));
    }
    assert_eq!(resolve_axis(-1, 4, NEUMANN), Some(0));
    assert_eq!(resolve_axis(-2, 4, NEUMANN), Some(1));
    assert_eq!(resolve_axis(5, 4, NEUMANN), Some(4));
    assert_eq!(resolve_axis(6, 4, NEUMANN), Some(3));
}

#[test]
fn gather_far_outside_the_domain_reads_the_border() {
    let mut g = setup_grid(20, 16, 16);
    fill_axis(&mut g, |x| x as f32 + 1.0);
    let mut out = [F(0.0); 8];
    gather_map::<f32, F, BSX, N>(&g, -500, 3, 3, CLAMP, 1, &mut out);
    assert_eq!(out, [F(1.0); 8]);
    gather_map::<f32, F, BSX, N>(&g, 18, 3, 3, CLAMP, 1, &mut out);
    assert_eq!(out[0], F(19.0));
    assert_eq!(out[1], F(20.0));
    gather_map::<f32, F, BSX, N>(&g, 900, 3, 3, CLAMP, 1, &mut out);
    assert_eq!(out, [F(20.0); 8]);
}

// ---- sampling --------------------------------------------------------------------------------

fn close(a: f32, b: f32, eps: f32) -> bool {
    (a - b).abs() <= eps
}

fn grid<D: Copy + Default + Send + Sync>(
    sx: usize,
    sy: usize,
    sz: usize,
    empty: D,
    full: D,
) -> SparseGrid<D, BSX, N> {
    SparseGrid::new("t".into(), sx, sy, sz, empty, full, BlockPool::new(8, 64))
}

fn fill<D: Copy + Default + Send + Sync>(
    g: &mut SparseGrid<D, BSX, N>,
    f: impl Fn(usize, usize, usize) -> D,
) {
    for z in 0..g.sz {
        for y in 0..g.sy {
            for x in 0..g.sx {
                g.set_voxel(x, y, z, f(x, y, z));
            }
        }
    }
}

fn cubic_weights(t: f32) -> [f32; 4] {
    let m = 1.0 - t;
    [
        (1.0 / 6.0) * m * m * m,
        2.0 / 3.0 - 0.5 * t * t * (2.0 - t),
        2.0 / 3.0 - 0.5 * m * m * (1.0 + t),
        (1.0 / 6.0) * t * t * t,
    ]
}

fn cubic_deriv_weights(t: f32) -> [f32; 4] {
    let m = 1.0 - t;
    [-m * m / 2.0, 0.5 * t * t - (2.0 - t) * t, m * (t + 1.0) - 0.5 * m * m, t * t / 2.0]
}

fn cubic_deriv2_weights(t: f32) -> [f32; 4] {
    [1.0 - t, 3.0 * t - 2.0, 1.0 - 3.0 * t, t]
}

fn lerp(a: f32, b: f32, t: f32) -> f32 {
    (b - a).mul_add(t, a)
}

fn trilinear_value(c: &[f32], t: [f32; 3]) -> f32 {
    let c00 = lerp(c[0], c[1], t[0]);
    let c10 = lerp(c[2], c[3], t[0]);
    let c01 = lerp(c[4], c[5], t[0]);
    let c11 = lerp(c[6], c[7], t[0]);
    let c0 = lerp(c00, c10, t[1]);
    let c1 = lerp(c01, c11, t[1]);
    lerp(c0, c1, t[2])
}

fn trilinear_grad(c: &[f32], t: [f32; 3]) -> [f32; 3] {
    let [u, v, w] = t;
    let f = c[7] - c[6] - c[5] + c[4] - c[3] + c[2] + c[1] - c[0];
    let fu = f * u + c[6] - c[4] - c[2] + c[0];
    let f5410 = c[5] - c[4] - c[1] + c[0];
    let f3210 = c[3] - c[2] - c[1] + c[0];
    [
        (f * v + f5410).mul_add(w, f3210 * v + c[1] - c[0]),
        fu.mul_add(w, f3210 * u + c[2] - c[0]),
        fu.mul_add(v, f5410 * u + c[4] - c[0]),
    ]
}

fn dot4(f: &[f32], w: &[f32; 4]) -> f32 {
    (f[0] * w[0] + f[2] * w[2]) + (f[1] * w[1] + f[3] * w[3])
}

/// Value, gradient and second derivatives (xx, yy, zz, xy, xz, yz) of a cubic window.
fn cubic_all(win: &[f32], t: [f32; 3]) -> (f32, [f32; 3], [f32; 6]) {
    let w = t.map(cubic_weights);
    let d = t.map(cubic_deriv_weights);
    let e = t.map(cubic_deriv2_weights);
    let mut val = 0.0f32;
    let mut g = [0.0f32; 3];
    let mut h = [0.0f32; 6];
    for k in 0..4 {
        for j in 0..4 {
            let f = &win[16 * k + 4 * j..16 * k + 4 * j + 4];
            let (sx, sxp, sxpp) = (dot4(f, &w[0]), dot4(f, &d[0]), dot4(f, &e[0]));
            let (wy, wz, dy, dz) = (w[1][j], w[2][k], d[1][j], d[2][k]);
            val = sx.mul_add(wy * wz, val);
            g[0] = sxp.mul_add(wy * wz, g[0]);
            g[1] = sx.mul_add(dy * wz, g[1]);
            g[2] = sx.mul_add(wy * dz, g[2]);
            h[0] = sxpp.mul_add(wy * wz, h[0]);
            h[1] = sx.mul_add(e[1][j] * wz, h[1]);
            h[2] = sx.mul_add(wy * e[2][k], h[2]);
            h[3] = sxp.mul_add(dy * wz, h[3]);
            h[4] = sxp.mul_add(wy * dz, h[4]);
            h[5] = sx.mul_add(dy * dz, h[5]);
        }
    }
    (val, g, h)
}

fn floats(w: &Vec<F>) -> Vec<f32> {
    w.iter().map(|f| f.0).collect()
}

type P3 = (f32, f32, f32);

fn split(ip: Interpolation, align: GridAlignment, p: P3) -> ([i32; 3], [f32; 3]) {
    let h = if is_half_shifted(ip, align) { 0.5 } else { 0.0 };
    let q = [p.0 - h, p.1 - h, p.2 - h];
    let f = q.map(f32::floor);
    (f.map(|v| v as i32), [q[0] - f[0], q[1] - f[1], q[2] - f[2]])
}

fn sample<D: Dequant<F>>(
    g: &SparseGrid<D, BSX, N>,
    ip: Interpolation,
    p: P3,
    bc: BoundaryCondition,
) -> f32 {
    let (c, t) = split(ip, CORNER, p);
    let reduce = |w: &Vec<F>| match ip {
        Interpolation::Linear => trilinear_value(&floats(w), t),
        Interpolation::CubicBSpline => cubic_all(&floats(w), t).0,
    };
    Sampler::new(g, CORNER, bc).sample(ip, c[0], c[1], c[2], &reduce)
}

fn gradient<D: Dequant<F>>(
    g: &SparseGrid<D, BSX, N>,
    ip: Interpolation,
    p: P3,
    bc: BoundaryCondition,
) -> [f32; 3] {
    let (c, t) = split(ip, CORNER, p);
    let reduce = |w: &Vec<F>| match ip {
        Interpolation::Linear => trilinear_grad(&floats(w), t),
        Interpolation::CubicBSpline => cubic_all(&floats(w), t).1,
    };
    Sampler::new(g, CORNER, bc).sample(ip, c[0], c[1], c[2], &reduce)
}

#[test]
fn test_sample_affine_exact() {
    let mut g = grid(48, 48, 48, 0.0f32, 1.0);
    fill(&mut g, |x, y, z| 2.0 * x as f32 + 3.0 * y as f32 + 4.0 * z as f32 + 5.0);
    for &(px, py, pz) in &[(10.3, 7.7, 3.2), (20.5, 21.25, 40.75), (5.1, 30.9, 10.4)] {
        let pos = (px, py, pz);
        let expect_linear = 2.0 * px + 3.0 * py + 4.0 * pz + 5.0;
        let expect_cubic = 2.0 * (px - 0.5) + 3.0 * (py - 0.5) + 4.0 * (pz - 0.5) + 5.0;
        assert!(close(sample(&g, LINEAR, pos, CLAMP), expect_linear, 1e-3));
        assert!(close(sample(&g, CUBIC, pos, CLAMP), expect_cubic, 1e-3));
        let gl = gradient(&g, LINEAR, pos, CLAMP);
        let gc = gradient(&g, CUBIC, pos, CLAMP);
        assert!(close(gl[0], 2.0, 1e-3) && close(gl[1], 3.0, 1e-3) && close(gl[2], 4.0, 1e-3));
        assert!(close(gc[0], 2.0, 1e-3) && close(gc[1], 3.0, 1e-3) && close(gc[2], 4.0, 1e-3));
    }
}

#[test]
fn test_boundary_clamp() {
    let mut g = grid(16, 16, 16, 0.0f32, 1.0);
    fill(&mut g, |x, _, _| x as f32);
    assert!(close(sample(&g, LINEAR, (15.9, 4.0, 4.0), CLAMP), 15.0, 1e-6));
    assert!(close(sample(&g, LINEAR, (-0.1, 4.0, 4.0), CLAMP), 0.0, 1e-6));
}

#[test]
fn test_boundary_dirichlet() {
    let mut g = grid(16, 16, 16, 100.0f32, 1.0);
    fill(&mut g, |x, _, _| x as f32);
    let inside = sample(&g, LINEAR, (5.0, 4.0, 4.0), BoundaryCondition::Dirichlet);
    let outside = sample(&g, LINEAR, (-1.2, 4.0, 4.0), BoundaryCondition::Dirichlet);
    assert!(close(inside, 5.0, 1e-6));
    assert!(close(outside, 100.0, 1e-6));
}

#[test]
fn test_boundary_neumann() {
    let mut g = grid(16, 16, 16, 0.0f32, 1.0);
    fill(&mut g, |x, _, _| x as f32);
    let got = sample(&g, LINEAR, (-1.7, 4.0, 4.0), NEUMANN);
    assert!(close(got, 0.7, 1e-6), "got {got}");
}

#[test]
fn test_linear_cross_block() {
    let mut g = grid(32, 16, 16, 0.0f32, 1.0);
    fill(&mut g, |x, _, _| x as f32);
    let val = sample(&g, LINEAR, (15.5, 4.0, 4.0), CLAMP);
    assert!(close(val, 15.5, 1e-6));
    let gr = gradient(&g, LINEAR, (15.5, 4.0, 4.0), CLAMP);
    assert!(close(gr[0], 1.0, 1e-5));
}

#[test]
fn test_cubic_cross_block() {
    let mut g = grid(32, 16, 16, 0.0f32, 1.0);
    fill(&mut g, |x, _, _| x as f32);
    let val = sample(&g, CUBIC, (16.0, 4.0, 4.0), CLAMP);
    assert!(close(val, 15.5, 1e-4), "got {val}");
    let gr = gradient(&g, CUBIC, (16.0, 4.0, 4.0), CLAMP);
    assert!(close(gr[0], 1.0, 1e-3));
}

#[test]
fn test_cubic_single_voxel() {
    let mut g = grid(1, 1, 1, 0.0f32, 1.0);
    fill(&mut g, |_, _, _| 7.0f32);
    let val = sample(&g, CUBIC, (0.3, 0.3, 0.3), CLAMP);
    assert!(close(val, 7.0, 1e-6));
    let gr = gradient(&g, CUBIC, (0.3, 0.3, 0.3), CLAMP);
    assert!(close(gr[0], 0.0, 1e-6));
}

#[test]
fn test_linear_partial_block() {
    let mut g = grid(17, 16, 16, 0.0f32, 1.0);
    fill(&mut g, |x, _, _| x as f32);
    let val = sample(&g, LINEAR, (16.5, 4.0, 4.0), CLAMP);
    assert!(close(val, 16.0, 1e-6));
}

#[test]
fn test_dummy_blocks() {
    let mut g = grid(32, 16, 16, 0.0f32, 1.0);
    g.set_full_block(g.get_block_id(16, 0, 0));
    let val = sample(&g, LINEAR, (15.5, 4.0, 4.0), CLAMP);
    assert!(close(val, 0.5, 1e-6), "got {val}");
}

#[test]
fn test_density_dequant() {
    let mut g = grid(32, 16, 16, Density(0), Density(u16::MAX));
    fill(&mut g, |x, _, _| Density(((x as f32 / 31.0) * u16::MAX as f32).round() as u16));
    let val = sample(&g, LINEAR, (15.5, 4.0, 4.0), CLAMP);
    assert!(close(val, 0.5, 1e-3), "got {val}");
}

#[test]
fn test_gradient_matches_finite_difference() {
    let mut g = grid(48, 48, 48, 0.0f32, 1.0);
    fill(&mut g, |x, y, z| {
        0.01 * x as f32 * x as f32 - 0.02 * y as f32 + 0.03 * (z as f32).sin()
    });
    let h = 1e-3f32;
    for &(px, py, pz) in &[(11.3, 12.7, 13.2), (20.5, 21.25, 30.75), (8.1, 25.9, 40.4)] {
        for ip in [LINEAR, CUBIC] {
            let gr = gradient(&g, ip, (px, py, pz), CLAMP);
            let s = |p: P3| sample(&g, ip, p, CLAMP);
            let fdx = (s((px + h, py, pz)) - s((px - h, py, pz))) / (2.0 * h);
            let fdy = (s((px, py + h, pz)) - s((px, py - h, pz))) / (2.0 * h);
            let fdz = (s((px, py, pz + h)) - s((px, py, pz - h))) / (2.0 * h);
            assert!(close(gr[0], fdx, 2e-3), "gx {ip:?}: {} vs {fdx}", gr[0]);
            assert!(close(gr[1], fdy, 2e-3), "gy {ip:?}");
            assert!(close(gr[2], fdz, 2e-3), "gz {ip:?}");
        }
    }
}

#[test]
fn test_hessian_matches_finite_difference() {
    let mut g = grid(48, 48, 48, 0.0f32, 1.0);
    fill(&mut g, |x, y, z| {
        let (x, y, z) = (x as f32, y as f32, z as f32);
        x * x + 2.0 * y * y + 3.0 * z * z
    });
    let h = 1e-2f32;
    for &(px, py, pz) in &[(11.3, 12.7, 13.2), (20.5, 21.25, 30.75)] {
        let (c, t) = split(CUBIC, CORNER, (px, py, pz));
        let reduce = |w: &Vec<F>| cubic_all(&floats(w), t).2;
        let hess = Sampler::new(&g, CORNER, CLAMP).hessian(c[0], c[1], c[2], &reduce);
        let gr = |p: P3| gradient(&g, CUBIC, p, CLAMP);
        let gxp = gr((px + h, py, pz));
        let gxm = gr((px - h, py, pz));
        let gyp = gr((px, py + h, pz));
        let gym = gr((px, py - h, pz));
        let gzp = gr((px, py, pz + h));
        let gzm = gr((px, py, pz - h));
        assert!(close(hess[0], (gxp[0] - gxm[0]) / (2.0 * h), 2e-2), "fxx {}", hess[0]);
        assert!(close(hess[1], (gyp[1] - gym[1]) / (2.0 * h), 2e-2), "fyy {}", hess[1]);
        assert!(close(hess[2], (gzp[2] - gzm[2]) / (2.0 * h), 2e-2), "fzz {}", hess[2]);
        assert!(close(hess[3], (gyp[0] - gym[0]) / (2.0 * h), 2e-2), "fxy {}", hess[3]);
        assert!(close(hess[4], (gzp[0] - gzm[0]) / (2.0 * h), 2e-2), "fxz {}", hess[4]);
        assert!(close(hess[5], (gzp[1] - gzm[1]) / (2.0 * h), 2e-2), "fyz {}", hess[5]);
    }
}

fn s(v: f32) -> Scalar {
    Scalar(v.to_bits())
}

fn sample_vec3(g: &SparseGrid<Velocity, BSX, N>, ip: Interpolation, p: P3) -> [f32; 3] {
    let (c, t) = split(ip, CORNER, p);
    let reduce = |w: &Vec<Vec3>| {
        let of = |f: fn(&Vec3) -> Scalar| {
            let c: Vec<f32> = w.iter().map(|v| f32::from_bits(f(v).0)).collect();
            match ip {
                Interpolation::Linear => trilinear_value(&c, t),
                Interpolation::CubicBSpline => cubic_all(&c, t).0,
            }
        };
        [of(|v| v.x), of(|v| v.y), of(|v| v.z)]
    };
    SamplerVec3::new(g, CORNER, CLAMP).sample(ip, c[0], c[1], c[2], &reduce)
}

#[test]
fn test_vec3_affine_exact() {
    let zero = Velocity(Vec3::new(s(0.0), s(0.0), s(0.0)));
    let mut g = grid(48, 48, 48, zero, zero);
    fill(&mut g, |x, y, z| {
        Velocity(Vec3::new(s(x as f32), s(2.0 * y as f32), s(3.0 * z as f32)))
    });
    let pos = (10.5, 20.25, 30.75);
    let out = sample_vec3(&g, LINEAR, pos);
    assert!(close(out[0], 10.5, 1e-3) && close(out[1], 40.5, 1e-3) && close(out[2], 92.25, 1e-3));
    let outc = sample_vec3(&g, CUBIC, pos);
    assert!(close(outc[0], 10.0, 1e-3) && close(outc[1], 39.5, 1e-3) && close(outc[2], 90.75, 1e-3));
}

#[test]
fn test_vec3_clamp() {
    let zero = Velocity(Vec3::new(s(0.0), s(0.0), s(0.0)));
    let mut g = grid(16, 16, 16, zero, zero);
    fill(&mut g, |x, y, z| Velocity(Vec3::new(s(x as f32), s(y as f32), s(z as f32))));
    let out = sample_vec3(&g, LINEAR, (15.9, 15.9, 15.9));
    assert!(close(out[0], 15.0, 1e-6) && close(out[1], 15.0, 1e-6) && close(out[2], 15.0, 1e-6));
}

#[test]
fn only_a_linear_corner_sample_is_not_shifted() {
    assert!(!is_half_shifted(LINEAR, CORNER));
    assert!(is_half_shifted(LINEAR, GridAlignment::CellCentered));
    assert!(is_half_shifted(CUBIC, CORNER));
    assert!(is_half_shifted(CUBIC, GridAlignment::CellCentered));
}
