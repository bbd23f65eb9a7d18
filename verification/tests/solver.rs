use msbg::blockpool::BlockPool;
use msbg::channel::Scalar;
use msbg::math::bilaplacian::kernel_bilaplacian;
use msbg::math::boundary::BoundaryCondition;
use msbg::math::gather::Dequant;
use msbg::math::laplacian::kernel_laplacian;
use msbg::math::meancurv::kernel_meancurv;
use msbg::math::stencil::{worker_seed, SimdRng};
use msbg::multires::halo::HaloBlock;
use msbg::multires::sort::morton3;
use msbg::solver::{apply_pde, build_color_buckets, PdeParams, Stencil};
use msbg::sparse_grid::{BlockKind, SparseGrid};

const BSX: usize = 16;
const N: usize = 4096;
const HSX: usize = 18;
const DY: usize = HSX;
const DZ: usize = HSX * HSX;
const LANES: usize = 8;

#[derive(Clone, Copy, Debug, Default, PartialEq)]
struct F(f32);

impl Dequant<F> for f32 {
    fn spec_dequant(self) -> F {
        F(self)
    }

    fn dequant(self) -> F {
        F(self)
    }
}

type Halo = HaloBlock<F, BSX, HSX>;

fn halo_of(f: impl Fn(f32, f32, f32) -> f32) -> Halo {
    let mut halo = Halo::new();
    for z in 0..HSX {
        for y in 0..HSX {
            for x in 0..HSX {
                let at = |v: usize| (v as i32 - 1) as f32;
                halo.data[z * DZ + y * DY + x] = F(f(at(x), at(y), at(z)));
            }
        }
    }
    halo
}

fn quadratic() -> Halo {
    halo_of(|x, y, z| x * x + y * y + z * z)
}

fn sphere() -> Halo {
    halo_of(|x, y, z| {
        let (x, y, z) = (x - 8.0, y - 8.0, z - 8.0);
        (x * x + y * y + z * z).sqrt()
    })
}

fn gradient(t: &[F]) -> (f32, f32, f32) {
    ((t[2].0 - t[1].0) * 0.5, (t[4].0 - t[3].0) * 0.5, (t[6].0 - t[5].0) * 0.5)
}

fn laplacian(dt: f32) -> impl Fn([F; 7]) -> F + Send + Sync {
    move |t| {
        let sum = t[1].0 + t[2].0 + t[3].0 + t[4].0 + t[5].0 + t[6].0;
        let lap = t[0].0.mul_add(-6.0, sum);
        let (fx, fy, fz) = gradient(&t);
        let g = fx.mul_add(fx, fy.mul_add(fy, fz * fz)).sqrt();
        F((dt * lap).mul_add(g, t[0].0))
    }
}

fn curvature(t: &[F; 19]) -> f32 {
    let (fx, fy, fz) = gradient(t);
    let f0 = t[0].0;
    let fxx = t[1].0 + t[2].0 - 2.0 * f0;
    let fyy = t[3].0 + t[4].0 - 2.0 * f0;
    let fzz = t[5].0 + t[6].0 - 2.0 * f0;
    let mixed = |i: usize| (t[i].0 - t[i + 1].0 - t[i + 2].0 + t[i + 3].0) * 0.25;
    let (fyx, fzx, fzy) = (mixed(7), mixed(11), mixed(15));
    let cross = fx * (fy * fyx) + fx * (fz * fzx) + fy * (fz * fzy);
    let hnum = (fy * fy + fz * fz).mul_add(
        fxx,
        (fx * fx + fz * fz).mul_add(fyy, (fx * fx + fy * fy).mul_add(fzz, -2.0 * cross)),
    );
    let grad = fx.mul_add(fx, fy.mul_add(fy, fz * fz));
    if grad > 1e-7 {
        hnum / grad
    } else {
        0.0
    }
}

fn meancurv(dt: f32, clamp01: bool) -> impl Fn([F; 19]) -> f32 + Send + Sync {
    move |t| {
        let new = t[0].0 + (dt * curvature(&t)).clamp(-0.1, 0.1);
        if clamp01 {
            new.clamp(0.0, 1.0)
        } else {
            new
        }
    }
}

fn scalar_laplacian(halo: &Halo, flags: &[u16], dt: f32) -> Vec<f32> {
    let mut out = Vec::new();
    for z in 1..=16 {
        for y in 1..=16 {
            for x in 1..=16 {
                let h = z * DZ + y * DY + x;
                let at = |i: usize| halo.data[i].0;
                let c = at(h);
                let (lx, rx, dyu) = (at(h - 1), at(h + 1), at(h - DY));
                let (dyd, dzb, dzf) = (at(h + DY), at(h - DZ), at(h + DZ));
                let lap = -6.0 * c + lx + rx + dyu + dyd + dzb + dzf;
                let (fx, fy, fz) = (0.5 * (rx - lx), 0.5 * (dyd - dyu), 0.5 * (dzf - dzb));
                let g = (fx * fx + fy * fy + fz * fz).sqrt();
                let fluid = flags[out.len()] & 0x1001 == 0;
                out.push(if fluid { c + dt * lap * g } else { c });
            }
        }
    }
    out
}

#[test]
fn test_lap_01_quadratic_field_matches_scalar() {
    let halo = quadratic();
    let flags = vec![0u16; N];
    let dt = 0.025;
    let out = kernel_laplacian(&halo, &flags, &laplacian(dt));
    let want = scalar_laplacian(&halo, &flags, dt);
    for i in 0..N {
        let d = (out[i].0 - want[i]).abs();
        assert!(d < 1e-4, "mismatch at {i}: {} {}", out[i].0, want[i]);
    }
}

#[test]
fn test_lap_02_simd_matches_scalar_random_field() {
    let mut halo = Halo::new();
    for (i, v) in halo.data.iter_mut().enumerate() {
        *v = F(((i * 17) % 100) as f32 * 0.1);
    }
    let flags: Vec<u16> = (0..N)
        .map(|i| match i % 5 {
            0 => 0x1,
            1 => 0x4,
            2 => 0x1000,
            _ => 0x0,
        })
        .collect();
    let dt = 0.05;
    let out = kernel_laplacian(&halo, &flags, &laplacian(dt));
    let want = scalar_laplacian(&halo, &flags, dt);
    for i in 0..N {
        let d = (out[i].0 - want[i]).abs();
        assert!(d < 1e-4, "mismatch at {i}: {} {}", out[i].0, want[i]);
    }
}

#[test]
fn test_lap_03_mask_semantics_air_is_fluid() {
    let halo = quadratic();
    let mut flags = vec![0u16; N];
    flags[0] = 0x1;
    flags[1] = 0x1000;
    flags[2] = 0x4;
    flags[3] = 0x0;
    let out = kernel_laplacian(&halo, &flags, &laplacian(0.025));
    assert_eq!(out[0].0, 0.0);
    assert_eq!(out[1].0, 1.0);
    let expected_air = 4.0 + 0.025 * 6.0 * (2.0 * 2.0);
    assert!((out[2].0 - expected_air).abs() < 1e-4);
    let expected_fluid = 9.0 + 0.025 * 6.0 * (2.0 * 3.0);
    assert!((out[3].0 - expected_fluid).abs() < 1e-4);
}

#[test]
fn test_lap_04_dt_zero_is_identity() {
    let halo = quadratic();
    let out = kernel_laplacian(&halo, &vec![0u16; N], &laplacian(0.0));
    let mut out_idx = 0;
    for z in 1..=16 {
        for y in 1..=16 {
            for x in 1..=16 {
                let gx = (x as i32 - 1) as f32;
                let gy = (y as i32 - 1) as f32;
                let gz = (z as i32 - 1) as f32;
                assert!((out[out_idx].0 - (gx * gx + gy * gy + gz * gz)).abs() < 1e-5);
                out_idx += 1;
            }
        }
    }
}

#[test]
fn test_mc_01_sphere_curvature_analytic() {
    let c = kernel_meancurv(&sphere(), &|t: [F; 19]| curvature(&t));
    let c = c[11 + 8 * 16 + 8 * 256];
    let expected = 2.0 / 3.0;
    assert!((c - expected).abs() < 2e-2, "sphere curvature {c} != 2/r {expected}");
}

fn scalar_meancurv(halo: &Halo, dt: f32) -> Vec<f32> {
    let mut out = Vec::new();
    for z in 1..=16 {
        for y in 1..=16 {
            for x in 1..=16 {
                let h = z * DZ + y * DY + x;
                let at = |i: usize| halo.data[i].0;
                let (f0, f1, f2) = (at(h), at(h - 1), at(h + 1));
                let (f3, f4, f5, f6) = (at(h - DY), at(h + DY), at(h - DZ), at(h + DZ));
                let (fx, fy, fz) = (0.5 * (f2 - f1), 0.5 * (f4 - f3), 0.5 * (f6 - f5));
                let fxx = f1 + f2 - 2.0 * f0;
                let fyy = f3 + f4 - 2.0 * f0;
                let fzz = f5 + f6 - 2.0 * f0;
                let fyx = 0.25
                    * (at(h + 1 + DY) - at(h + 1 - DY) - at(h - 1 + DY) + at(h - 1 - DY));
                let fzx = 0.25
                    * (at(h + 1 + DZ) - at(h + 1 - DZ) - at(h - 1 + DZ) + at(h - 1 - DZ));
                let fzy = 0.25
                    * (at(h + DY + DZ) - at(h + DY - DZ) - at(h - DY + DZ) + at(h - DY - DZ));
                let hnum = (fy * fy + fz * fz) * fxx
                    + (fx * fx + fz * fz) * fyy
                    + (fx * fx + fy * fy) * fzz
                    - 2.0 * (fx * fy * fyx + fx * fz * fzx + fy * fz * fzy);
                let grad = fx * fx + fy * fy + fz * fz;
                let hc = if grad > 1e-7 { hnum / grad } else { 0.0 };
                out.push(f0 + (dt * hc).clamp(-0.1, 0.1));
            }
        }
    }
    out
}

#[test]
fn test_mc_02_simd_matches_scalar_random() {
    let mut halo = Halo::new();
    for (i, v) in halo.data.iter_mut().enumerate() {
        *v = F(((i * 31) % 200) as f32 * 0.05);
    }
    let dt = 0.025;
    let out = kernel_meancurv(&halo, &meancurv(dt, false));
    let want = scalar_meancurv(&halo, dt);
    for i in 0..N {
        let d = (out[i] - want[i]).abs();
        assert!(d < 1e-4, "mismatch at {i}: {} {}", out[i], want[i]);
    }
}

#[test]
fn test_mc_03_planar_and_constant_are_unchanged() {
    let halo = halo_of(|x, y, z| 2.0 * x + 3.0 * y - z);
    let out = kernel_meancurv(&halo, &meancurv(0.5, false));
    let mut out_idx = 0;
    for z in 1..=16 {
        for y in 1..=16 {
            for x in 1..=16 {
                let expected =
                    2.0 * (x as i32 - 1) as f32 + 3.0 * (y as i32 - 1) as f32 - (z as i32 - 1) as f32;
                assert!((out[out_idx] - expected).abs() < 1e-5);
                out_idx += 1;
            }
        }
    }
    let out = kernel_meancurv(&halo_of(|_, _, _| 5.0), &meancurv(0.5, false));
    for v in out.iter() {
        assert_eq!(*v, 5.0);
    }
}

#[test]
fn test_mc_04_clamp_saturates() {
    let out = kernel_meancurv(&sphere(), &meancurv(100.0, false));
    let idx = 10 + 8 * 16 + 8 * 256;
    let f0 = 2.0f32;
    assert!((out[idx] - (f0 + 0.1)).abs() < 1e-4, "clamp failed: got {}", out[idx]);
}

#[test]
fn test_bl_01_simd_matches_scalar_random() {
    const H2: usize = 20;
    let mut halo: HaloBlock<F, BSX, H2> = HaloBlock::new();
    for (i, v) in halo.data.iter_mut().enumerate() {
        *v = F(((i * 13) % 250) as f32 * 0.01);
    }
    let dt = 0.01f32;
    let update = |t: [F; 25]| {
        let s1 = t[1].0 + t[2].0 + t[3].0 + t[4].0 + t[5].0 + t[6].0;
        let s2 = t[7].0 + t[8].0 + t[9].0 + t[10].0 + t[11].0 + t[12].0;
        let sd: f32 = t[13..].iter().map(|f| f.0).sum();
        let h = 42.0 * t[0].0 - 12.0 * s1 + s2 + 2.0 * sd;
        let (fx, fy, fz) = gradient(&t);
        let g = fx.mul_add(fx, fy.mul_add(fy, fz * fz)).sqrt();
        t[0].0 + (-((dt * h) * g)).clamp(-0.1, 0.1)
    };
    let out = kernel_bilaplacian(&halo, &update);
    let (dy, dz) = (H2, H2 * H2);
    let mut out_idx = 0;
    for z in 2..=17 {
        for y in 2..=17 {
            for x in 2..=17 {
                let h = z * dz + y * dy + x;
                let at = |i: usize| halo.data[i].0;
                let s1 = at(h - 1) + at(h + 1) + at(h - dy) + at(h + dy) + at(h - dz) + at(h + dz);
                let s2 = at(h - 2)
                    + at(h + 2)
                    + at(h - 2 * dy)
                    + at(h + 2 * dy)
                    + at(h - 2 * dz)
                    + at(h + 2 * dz);
                let sd = at(h + 1 + dy)
                    + at(h + 1 - dy)
                    + at(h - 1 + dy)
                    + at(h - 1 - dy)
                    + at(h + 1 + dz)
                    + at(h + 1 - dz)
                    + at(h - 1 + dz)
                    + at(h - 1 - dz)
                    + at(h + dy + dz)
                    + at(h + dy - dz)
                    + at(h - dy + dz)
                    + at(h - dy - dz);
                let hh = 42.0 * at(h) - 12.0 * s1 + s2 + 2.0 * sd;
                let fx = 0.5 * (at(h + 1) - at(h - 1));
                let fy = 0.5 * (at(h + dy) - at(h - dy));
                let fz = 0.5 * (at(h + dz) - at(h - dz));
                let g = (fx * fx + fy * fy + fz * fz).sqrt();
                let want = at(h) + (-dt * hh * g).clamp(-0.1, 0.1);
                let d = (out[out_idx] - want).abs();
                assert!(d < 1e-4, "mismatch at {out_idx}: {} {want}", out[out_idx]);
                out_idx += 1;
            }
        }
    }
}

// The order of the taps, shown by the halo cell that each one comes from.
#[test]
fn kernels_hand_over_taps_in_order() {
    let mut h1: HaloBlock<usize, 1, 3> = HaloBlock::new();
    for (i, v) in h1.data.iter_mut().enumerate() {
        *v = i;
    }
    let taps = kernel_meancurv(&h1, &|t: [usize; 19]| t);
    assert_eq!(
        taps,
        vec![[13, 12, 14, 10, 16, 4, 22, 17, 11, 15, 9, 23, 5, 21, 3, 25, 7, 19, 1]]
    );
    let kept = kernel_laplacian(&h1, &vec![0], &|t: [usize; 7]| {
        assert_eq!(t, [13, 12, 14, 10, 16, 4, 22]);
        99
    });
    assert_eq!(kept, vec![99]);
    let mut h2: HaloBlock<usize, 1, 5> = HaloBlock::new();
    for (i, v) in h2.data.iter_mut().enumerate() {
        *v = i;
    }
    let taps = kernel_bilaplacian(&h2, &|t: [usize; 25]| t);
    assert_eq!(taps[0][..13], [62, 61, 63, 57, 67, 37, 87, 60, 64, 52, 72, 12, 112]);
    assert_eq!(taps[0][13..], [68, 58, 66, 56, 88, 38, 86, 36, 92, 42, 82, 32]);
}

fn unit(s: Scalar) -> f32 {
    f32::from_bits(s.0)
}

#[test]
fn test_rng_01_uniform_in_range() {
    let mut rng = SimdRng::<LANES>::seed(0x1234_5678);
    for _ in 0..100 {
        for s in rng.next() {
            let f = unit(s);
            assert!((0.0..1.0).contains(&f), "rng out of range {f}");
        }
    }
}

#[test]
fn test_rng_02_distinct_seeds_distinct_streams() {
    let mut a = SimdRng::<LANES>::seed(1);
    let mut b = SimdRng::<LANES>::seed(2);
    assert_ne!(a.next().map(|s| s.0), b.next().map(|s| s.0));
}

#[test]
fn rng_lanes_follow_the_hash() {
    let hash = |seed: u32, lane: u32| {
        let mut h = seed ^ lane.wrapping_mul(0x9e37_79b9);
        h ^= h >> 16;
        h = h.wrapping_mul(0x85eb_ca6b);
        h ^= h >> 13;
        h = h.wrapping_mul(0xc2b2_ae35);
        h ^= h >> 16;
        if h == 0 { 0xdead_beef } else { h }
    };
    let mut rng = SimdRng::<4>::seed(7);
    let mut state: Vec<u32> = (0..4).map(|i| hash(7, i)).collect();
    assert_eq!(rng.state.to_vec(), state);
    for _ in 0..3 {
        let got = rng.next();
        for i in 0..4 {
            state[i] = state[i].wrapping_mul(16807);
            assert_eq!(unit(got[i]), f32::from_bits(state[i] >> 9 | 0x3f80_0000) - 1.0);
            assert_eq!(unit(got[i]), (state[i] >> 9) as f32 / 8388608.0);
        }
    }
    assert_eq!(SimdRng::<1>::seed(0).state, [0xdead_beef]);
}

#[test]
fn rng_first_number_of_seed_zero() {
    let mut rng = SimdRng::<4>::seed(0);
    assert_eq!(rng.state[0], 0xdead_beef);
    let first = rng.next()[0];
    assert_eq!(first, Scalar(0x3ec1_a478));
    assert_eq!(unit(first), 3172638.0 / 8388608.0);
}

// Each state gives the upper 23 bits over 2^23, at the ends of the range too.
#[test]
fn rng_numbers_at_the_ends() {
    let back = 0x4c34_5617u32;
    for m in [0u32, 1, 2, 3, 0x3f_ffff, 0x40_0000, 0x7f_fffe, 0x7f_ffff] {
        let mut rng = SimdRng::<1> { state: [(m << 9 | 1).wrapping_mul(back)] };
        let got = rng.next()[0];
        assert_eq!(rng.state[0] >> 9, m);
        assert_eq!(unit(got), m as f32 / 8388608.0);
        assert_eq!(got.0, (m as f32 / 8388608.0).to_bits());
    }
}

#[test]
fn workers_have_seeds_of_their_own() {
    assert_eq!(worker_seed(0), 0xdead_beef);
    assert_eq!(worker_seed(1), 0x9e37_79b9 ^ 0xdead_beef);
    let mut seeds: Vec<u32> = (0..1000).map(worker_seed).collect();
    seeds.sort_unstable();
    seeds.dedup();
    assert_eq!(seeds.len(), 1000);
}

fn grid(sx: usize, sy: usize, sz: usize) -> SparseGrid<f32, BSX, N> {
    let pool = BlockPool::new(64, 64);
    SparseGrid::new("solver_test".into(), sx, sy, sz, 0.0, 1.0, pool)
}

fn all_active(g: &SparseGrid<f32, BSX, N>) -> Vec<u32> {
    (0..g.n_blocks as u32).collect()
}

fn params(dt: f32, iterations: usize, clamp: bool) -> PdeParams {
    PdeParams { dt: Scalar(dt.to_bits()), iterations, do_constr_zero_one: clamp }
}

fn smooth_laplacian(g: &mut SparseGrid<f32, BSX, N>, active: &Vec<u32>, p: &PdeParams) {
    let flags = vec![0u16; N];
    let kernel = |h: &Halo, dt: Scalar, clamp: bool| -> Vec<f32> {
        let out = kernel_laplacian(h, &flags, &laplacian(f32::from_bits(dt.0)));
        out.iter().map(|f| if clamp { f.0.clamp(0.0, 1.0) } else { f.0 }).collect()
    };
    apply_pde(g, active, Stencil::Laplacian, p, &kernel);
}

fn smooth_meancurv(g: &mut SparseGrid<f32, BSX, N>, active: &Vec<u32>, p: &PdeParams) {
    let kernel = |h: &Halo, dt: Scalar, clamp: bool| -> Vec<f32> {
        kernel_meancurv(h, &meancurv(f32::from_bits(dt.0), clamp))
    };
    apply_pde(g, active, Stencil::MeanCurvature, p, &kernel);
}

#[test]
fn test_solve_01_affine_field_identity() {
    let mut g = grid(32, 32, 32);
    for z in 0..32 {
        for y in 0..32 {
            for x in 0..32 {
                g.set_voxel(x, y, z, 2.0 * x as f32 + 3.0 * y as f32 - z as f32);
            }
        }
    }
    let active = all_active(&g);
    smooth_laplacian(&mut g, &active, &params(0.05, 1, false));
    for z in 1..31 {
        for y in 1..31 {
            for x in 1..31 {
                let want = 2.0 * x as f32 + 3.0 * y as f32 - z as f32;
                assert!((g.get_voxel(x, y, z) - want).abs() < 1e-4, "({x},{y},{z})");
            }
        }
    }
}

fn serial_reference(g: &mut SparseGrid<f32, BSX, N>, active: &[u32], p: &PdeParams) {
    let mut buckets: [Vec<u32>; 8] = std::array::from_fn(|_| Vec::new());
    for &bid in active {
        let (bx, by, bz) = g.get_block_coords_by_id(bid as usize);
        let color = (bx & 1) | ((by & 1) << 1) | ((bz & 1) << 2);
        buckets[color].push(bid);
    }
    let update = meancurv(f32::from_bits(p.dt.0), p.do_constr_zero_one);
    let mut halo = Halo::new();
    for _ in 0..p.iterations {
        for bucket in &buckets {
            for &bid in bucket {
                if !matches!(g.block_kind(bid as usize), BlockKind::Allocated(_)) {
                    continue;
                }
                halo.fill::<1, true, f32, N>(g, bid as usize, BoundaryCondition::Neumann);
                let out = kernel_meancurv(&halo, &update);
                let (bx, by, bz) = g.get_block_coords_by_id(bid as usize);
                for (i, v) in out.iter().enumerate() {
                    let (x, y, z) = (i % 16, i / 16 % 16, i / 256);
                    g.set_voxel(16 * bx + x, 16 * by + y, 16 * bz + z, *v);
                }
            }
        }
    }
}

#[test]
fn test_solve_02_color_matches_serial_reference() {
    let mut g = grid(32, 32, 32);
    let mut g2 = grid(32, 32, 32);
    for z in 0..32 {
        for y in 0..32 {
            for x in 0..32 {
                let v = ((x * 17 + y * 31 + z * 7) % 100) as f32 * 0.01;
                g.set_voxel(x, y, z, v);
                g2.set_voxel(x, y, z, v);
            }
        }
    }
    let active = all_active(&g);
    let p = params(0.05, 2, false);
    smooth_meancurv(&mut g, &active, &p);
    serial_reference(&mut g2, &active, &p);
    for z in 0..32 {
        for y in 0..32 {
            for x in 0..32 {
                let a = g.get_voxel(x, y, z);
                let b = g2.get_voxel(x, y, z);
                assert!((a - b).abs() < 1e-5, "({x},{y},{z}): {a} != {b}");
            }
        }
    }
}

#[test]
fn test_solve_03_dummy_and_gap_active() {
    let mut g = grid(32, 32, 32);
    g.set_voxel(0, 0, 0, 0.5);
    g.set_voxel(16, 16, 16, 0.7);
    let dummy = g.get_block_id(0, 16, 0);
    g.set_full_block(dummy);
    let active: Vec<u32> = vec![0, 7, dummy as u32, 5];
    smooth_laplacian(&mut g, &active, &params(0.05, 1, true));
    assert!(g.get_voxel(0, 0, 0).is_finite());
    assert!((0.0..=1.0).contains(&g.get_voxel(0, 0, 0)));
    assert!(matches!(g.block_kind(dummy), BlockKind::Full));
    assert!(matches!(g.block_kind(5), BlockKind::Empty));
}

#[test]
fn test_solve_04_empty_active_is_noop() {
    let mut g = grid(32, 32, 32);
    g.set_voxel(3, 3, 3, 0.25);
    smooth_laplacian(&mut g, &vec![], &params(0.05, 2, true));
    assert_eq!(g.get_voxel(3, 3, 3), 0.25);
}

#[test]
fn test_solve_05_clamp_zero_one() {
    let mut g = grid(16, 16, 16);
    for z in 0..16 {
        for y in 0..16 {
            for x in 0..16 {
                g.set_voxel(x, y, z, 100.0 + x as f32);
            }
        }
    }
    let active = all_active(&g);
    smooth_meancurv(&mut g, &active, &params(1000.0, 1, true));
    for z in 0..16 {
        for y in 0..16 {
            for x in 0..16 {
                let v = g.get_voxel(x, y, z);
                assert!((0.0..=1.0).contains(&v), "clamp violated: {v}");
            }
        }
    }
}

#[test]
fn test_solve_06_odd_iterations() {
    let mut g = grid(16, 16, 16);
    for z in 0..16 {
        for y in 0..16 {
            for x in 0..16 {
                g.set_voxel(x, y, z, (x * y + z) as f32 / 255.0);
            }
        }
    }
    let active = all_active(&g);
    smooth_laplacian(&mut g, &active, &params(0.05, 3, true));
    for z in 0..16 {
        for y in 0..16 {
            for x in 0..16 {
                assert!(g.get_voxel(x, y, z).is_finite());
            }
        }
    }
}

#[test]
fn buckets_hold_one_color_each_in_morton_order() {
    let g = grid(64, 64, 64);
    let active: Vec<u32> = (0..64).rev().filter(|b| b % 5 != 0).collect();
    let buckets = build_color_buckets(&g, &active);
    assert_eq!(buckets.len(), 8);
    let mut seen: Vec<u32> = Vec::new();
    for (color, bucket) in buckets.iter().enumerate() {
        let mut keys = Vec::new();
        for &bid in bucket {
            let (bx, by, bz) = g.get_block_coords_by_id(bid as usize);
            assert_eq!(bx % 2 + 2 * (by % 2) + 4 * (bz % 2), color);
            keys.push(morton3(bx as u32, by as u32, bz as u32));
            seen.push(bid);
        }
        assert!(keys.windows(2).all(|w| w[0] <= w[1]));
    }
    seen.sort_unstable();
    let mut want = active.clone();
    want.sort_unstable();
    assert_eq!(seen, want);
}

// Blocks of a color see what the colors before them wrote.
#[test]
fn later_colors_see_earlier_ones() {
    let pool = BlockPool::new(8, 8);
    let mut g: SparseGrid<f32, 1, 1> = SparseGrid::new("c".into(), 4, 1, 1, 0.0, 9.0, pool);
    for x in 0..4 {
        g.set_voxel(x, 0, 0, x as f32);
    }
    let kernel = |h: &HaloBlock<F, 1, 3>, _: Scalar, _: bool| -> Vec<f32> {
        vec![h.get(0, 1, 1).0 + 10.0 * h.get(1, 1, 1).0 + 100.0 * h.get(2, 1, 1).0]
    };
    apply_pde(&mut g, &vec![0, 1, 2], Stencil::Laplacian, &params(0.0, 1, false), &kernel);
    assert_eq!(g.get_voxel(0, 0, 0), 100.0);
    assert_eq!(g.get_voxel(2, 0, 0), 321.0);
    assert_eq!(g.get_voxel(1, 0, 0), 100.0 + 10.0 + 32100.0);
    assert_eq!(g.get_voxel(3, 0, 0), 3.0);
}

// The kernel gets the time step and the clamp of the parameters.
#[test]
fn kernel_gets_the_parameters() {
    for clamp in [false, true] {
        let pool = BlockPool::new(8, 8);
        let mut g: SparseGrid<f32, 1, 1> = SparseGrid::new("p".into(), 2, 1, 1, 0.0, 9.0, pool);
        g.set_voxel(1, 0, 0, 3.0);
        let kernel = |h: &HaloBlock<F, 1, 3>, dt: Scalar, clamp: bool| -> Vec<f32> {
            vec![h.get(1, 1, 1).0 + f32::from_bits(dt.0) + if clamp { 100.0 } else { 0.0 }]
        };
        apply_pde(&mut g, &vec![0, 1], Stencil::Laplacian, &params(0.5, 2, clamp), &kernel);
        assert_eq!(g.get_voxel(1, 0, 0), if clamp { 204.0 } else { 4.0 });
        assert_eq!(g.get_voxel(0, 0, 0), 0.0);
    }
}

// What is not active or not allocated stays, and so does everything if nothing is swept.
#[test]
fn sweeps_leave_the_rest() {
    let build = || {
        let pool = BlockPool::new(8, 8);
        let mut g: SparseGrid<f32, 1, 1> = SparseGrid::new("r".into(), 6, 1, 1, 0.0, 9.0, pool);
        for x in [0, 1, 3] {
            g.set_voxel(x, 0, 0, 10.0 + x as f32);
        }
        g.set_full_block(4);
        g
    };
    let kernel = |h: &HaloBlock<F, 1, 3>, _: Scalar, _: bool| -> Vec<f32> {
        vec![2.0 * h.get(1, 1, 1).0]
    };
    let values = |g: &SparseGrid<f32, 1, 1>| -> Vec<f32> {
        (0..6).map(|x| g.get_voxel(x, 0, 0)).collect()
    };
    for (active, iterations, want) in [
        (vec![1, 2, 4, 5], 2, [10.0, 44.0, 0.0, 13.0, 9.0, 0.0]),
        (vec![], 3, [10.0, 11.0, 0.0, 13.0, 9.0, 0.0]),
        (vec![0, 1, 2, 3, 4, 5], 0, [10.0, 11.0, 0.0, 13.0, 9.0, 0.0]),
    ] {
        let mut g = build();
        let kinds: Vec<BlockKind> = (0..6).map(|b| g.block_kind(b)).collect();
        let free = g.block_pool.remaining();
        apply_pde(&mut g, &active, Stencil::Laplacian, &params(0.0, iterations, false), &kernel);
        assert_eq!(values(&g), want);
        assert_eq!((0..6).map(|b| g.block_kind(b)).collect::<Vec<_>>(), kinds);
        assert_eq!(g.block_pool.remaining(), free);
    }
}

// The order of the active list makes no difference.
#[test]
fn sweeps_do_not_depend_on_the_order() {
    let run = |active: Vec<u32>| -> Vec<f32> {
        let pool = BlockPool::new(8, 8);
        let mut g: SparseGrid<f32, 1, 1> = SparseGrid::new("o".into(), 5, 2, 1, 0.0, 9.0, pool);
        for y in 0..2 {
            for x in 0..5 {
                g.set_voxel(x, y, 0, (x + 5 * y) as f32);
            }
        }
        let kernel = |h: &HaloBlock<F, 1, 3>, _: Scalar, _: bool| -> Vec<f32> {
            vec![h.get(0, 1, 1).0 + 3.0 * h.get(1, 1, 1).0 - h.get(1, 2, 1).0]
        };
        apply_pde(&mut g, &active, Stencil::Laplacian, &params(0.0, 3, false), &kernel);
        (0..10).map(|i| g.get_voxel(i % 5, i / 5, 0)).collect()
    };
    let forward = run((0..10).collect());
    assert_eq!(run((0..10).rev().collect()), forward);
    assert_eq!(run(vec![3, 7, 1, 0, 9, 2, 4, 8, 6, 5]), forward);
}
