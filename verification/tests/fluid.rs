use msbg::blockpool::BlockPool;
use msbg::channel::{Scalar, Vec3};
use msbg::fluid::g2p::{CellIndex, MacSampler};
use msbg::fluid::mac::{MacGrid, X, Y, Z};
use msbg::fluid::p2g::{particles_to_grid, plan_transfer, FaceSplat};
use msbg::fluid::particles::{bucket_particles, Particles, KIND_AIR, KIND_LIQUID};
use msbg::math::boundary::{BoundaryCondition, Interpolation};
use msbg::particles::active::active_blocks;
use msbg::particles::dims::{BlockBox, GridDims};
use msbg::particles::splat::{SplatPlan, VoxelBox};
use msbg::sparse_grid::SparseGrid;

const BSX: usize = 16;
const N: usize = 4096;

fn bits(v: f32) -> Scalar {
    Scalar(v.to_bits())
}

fn num(s: Scalar) -> f32 {
    f32::from_bits(s.0)
}

fn vec3(v: [f32; 3]) -> Vec3 {
    Vec3 { x: bits(v[0]), y: bits(v[1]), z: bits(v[2]) }
}

fn array(v: Vec3) -> [f32; 3] {
    [num(v.x), num(v.y), num(v.z)]
}

fn make_mac(s: usize) -> MacGrid<BSX, N> {
    MacGrid::new(s, s, s, 8, 64)
}

fn ratio(p: Scalar, m: Scalar) -> Scalar {
    let m = num(m);
    bits(if m > 0.0 { num(p) / m } else { 0.0 })
}

fn divergence(u: [Scalar; 6]) -> Scalar {
    let u = u.map(num);
    bits((u[0] - u[1]) + (u[2] - u[3]) + (u[4] - u[5]))
}

fn div_grid(s: usize) -> SparseGrid<Scalar, BSX, N> {
    SparseGrid::new("div".into(), s, s, s, bits(0.0), bits(0.0), BlockPool::new(8, 64))
}

#[test]
fn div_10_uniform_and_linear() {
    let s = 32;
    let mut mac = make_mac(s);
    let active: Vec<usize> = (0..GridDims::new(s, s, s, BSX).n_blocks()).collect();
    mac.zero_blocks(&active);
    for k in 0..s {
        for j in 0..s {
            for i in 0..s {
                mac.velocity_mut(X).set_voxel(i, j, k, bits((i + 1) as f32));
                mac.velocity_mut(Y).set_voxel(i, j, k, bits((j + 1) as f32));
                mac.velocity_mut(Z).set_voxel(i, j, k, bits((k + 1) as f32));
            }
        }
    }
    let mut div = div_grid(s);
    mac.divergence(&mut div, &active, &divergence);
    for k in 0..s {
        for j in 0..s {
            for i in 0..s {
                assert_eq!(num(div.get_voxel(i, j, k)), 3.0, "div ({i},{j},{k})");
            }
        }
    }
    for k in 0..s {
        for j in 0..s {
            for i in 0..s {
                for a in [X, Y, Z] {
                    mac.velocity_mut(a).set_voxel(i, j, k, bits(5.0));
                }
            }
        }
    }
    mac.divergence(&mut div, &active, &divergence);
    for k in 1..s {
        for j in 1..s {
            for i in 1..s {
                assert_eq!(num(div.get_voxel(i, j, k)), 0.0, "uniform div ({i},{j},{k})");
            }
        }
    }
}

// The six faces of a cell in order; the lower one is zero at the domain boundary.
#[test]
fn divergence_reads_the_faces_of_its_cell() {
    let mut mac: MacGrid<2, 8> = MacGrid::new(4, 3, 3, 4, 8);
    mac.zero_blocks(&vec![0, 1]);
    mac.velocity_mut(X).set_voxel(0, 1, 1, Scalar(10));
    mac.velocity_mut(X).set_voxel(1, 1, 1, Scalar(11));
    mac.velocity_mut(Y).set_voxel(1, 0, 1, Scalar(20));
    mac.velocity_mut(Y).set_voxel(1, 1, 1, Scalar(21));
    mac.velocity_mut(Z).set_voxel(1, 1, 0, Scalar(30));
    mac.velocity_mut(Z).set_voxel(1, 1, 1, Scalar(31));
    let pool = BlockPool::new(4, 8);
    let mut dst: SparseGrid<Scalar, 2, 8> =
        SparseGrid::new("d".into(), 4, 3, 3, Scalar(7), Scalar(9), pool);
    let pack = |u: [Scalar; 6]| Scalar(u.iter().fold(0, |a, s| a * 32 + s.0));
    mac.divergence(&mut dst, &vec![0], &pack);
    let want = [11, 10, 21, 20, 31, 30].iter().fold(0u32, |a, s| a.wrapping_mul(32) + s);
    assert_eq!(dst.get_voxel(1, 1, 1).0, want);
    assert_eq!(dst.get_voxel(0, 1, 1).0, [10, 0, 0, 0, 0, 0].iter().fold(0u32, |a, s| {
        a.wrapping_mul(32) + s
    }));
    assert_eq!(dst.get_voxel(2, 0, 0).0, 7);
    assert_eq!((mac.sx(), mac.sy(), mac.sz(), mac.nx(), mac.ny(), mac.nxy()), (4, 3, 3, 2, 2, 4));
}

fn lerp(a: f32, b: f32, t: f32) -> f32 {
    (b - a).mul_add(t, a)
}

fn split(p: [f32; 3]) -> (CellIndex, [f32; 3]) {
    let q = p.map(|v| v - 0.5);
    let f = q.map(f32::floor);
    let cell = CellIndex { x: f[0] as i32, y: f[1] as i32, z: f[2] as i32 };
    (cell, [q[0] - f[0], q[1] - f[1], q[2] - f[2]])
}

fn sample(s: &MacSampler<BSX, N>, p: [f32; 3]) -> [f32; 3] {
    let (cu, tu) = split([p[0] - 0.5, p[1], p[2]]);
    let (cv, tv) = split([p[0], p[1] - 0.5, p[2]]);
    let (cw, tw) = split([p[0], p[1], p[2] - 0.5]);
    let blend = |t: [f32; 3]| {
        move |w: &Vec<Scalar>| -> f32 {
            let c: Vec<f32> = w.iter().map(|s| num(*s)).collect();
            let c0 = lerp(lerp(c[0], c[1], t[0]), lerp(c[2], c[3], t[0]), t[1]);
            let c1 = lerp(lerp(c[4], c[5], t[0]), lerp(c[6], c[7], t[0]), t[1]);
            lerp(c0, c1, t[2])
        }
    };
    let (u, v, w) =
        s.sample(Interpolation::Linear, cu, cv, cw, &blend(tu), &blend(tv), &blend(tw));
    [u, v, w]
}

#[test]
fn g2p_11_face_center_exact() {
    let mut mac = make_mac(32);
    mac.zero_blocks(&(0..8).collect());
    for a in 0..3 {
        for k in 0..32 {
            for j in 0..32 {
                for i in 0..32 {
                    let val = match a {
                        X => i + 1,
                        Y => j + 1,
                        _ => k + 1,
                    };
                    mac.velocity_mut(a).set_voxel(i, j, k, bits(val as f32));
                }
            }
        }
    }
    let sampler = MacSampler::new(&mac, BoundaryCondition::Clamp);
    let got = sample(&sampler, [5.0, 8.5, 8.5]);
    assert_eq!(got[0], 5.0);
    assert_eq!(got[1], 8.5);
    assert_eq!(got[2], 8.5);
}

#[test]
fn g2p_09_out_of_domain_clamp() {
    let mut mac = make_mac(32);
    mac.zero_blocks(&(0..8).collect());
    for k in 0..32 {
        for j in 0..32 {
            for i in 0..32 {
                mac.velocity_mut(X).set_voxel(i, j, k, bits(1.0));
                mac.velocity_mut(Y).set_voxel(i, j, k, bits(2.0));
                mac.velocity_mut(Z).set_voxel(i, j, k, bits(3.0));
            }
        }
    }
    let sampler = MacSampler::new(&mac, BoundaryCondition::Clamp);
    let got = sample(&sampler, [-5.0, -5.0, -5.0]);
    assert!(got[0].is_finite() && got[1].is_finite() && got[2].is_finite());
    let got2 = sample(&sampler, [100.0, 100.0, 100.0]);
    assert!(got2[0].is_finite());
    assert_eq!(got, [1.0, 2.0, 3.0]);
    assert_eq!(got2, [1.0, 2.0, 3.0]);
}

fn particles(ps: &[[f32; 3]], vs: &[[f32; 3]], mass: &[f32]) -> Particles {
    Particles {
        positions: ps.iter().map(|p| vec3(*p)).collect(),
        velocities: vs.iter().map(|v| vec3(*v)).collect(),
        kinds: vec![KIND_LIQUID; ps.len()],
        mass: mass.iter().map(|m| bits(*m)).collect(),
    }
}

fn footprints(ps: &Particles, d: &GridDims, r_p: f32) -> Vec<BlockBox> {
    let r = (r_p + 1.0) / d.bsx as f32;
    let lo = |v: f32| (v / d.bsx as f32 - r).trunc() as i32;
    let hi = |v: f32| (v / d.bsx as f32 + r).trunc() as i32;
    ps.positions
        .iter()
        .map(|p| {
            let p = array(*p);
            BlockBox {
                x1: lo(p[0]),
                x2: hi(p[0]),
                y1: lo(p[1]),
                y2: hi(p[1]),
                z1: lo(p[2]),
                z2: hi(p[2]),
            }
        })
        .collect()
}

fn sum(a: Scalar, b: Scalar) -> Scalar {
    bits(num(a) + num(b))
}

fn offsets(a: usize) -> [f32; 3] {
    [0, 1, 2].map(|k| if k == a { 1.0 } else { 0.5 })
}

fn transfer(mac: &mut MacGrid<BSX, N>, ps: &Particles, r_p: f32) {
    let dims = GridDims::new(mac.sx(), mac.sy(), mac.sz(), BSX);
    let cells: Vec<(usize, usize, usize)> = ps
        .positions
        .iter()
        .map(|p| {
            let p = array(*p);
            (p[0] as usize, p[1] as usize, p[2] as usize)
        })
        .collect();
    let t = plan_transfer(ps, &cells, &footprints(ps, &dims, r_p), &dims);
    let b = t.particles;
    let inv_r2 = 1.0 / (r_p * r_p);
    let plan = |a: usize| {
        let o = offsets(a);
        SplatPlan {
            boxes: b
                .positions
                .iter()
                .map(|p| {
                    let p = array(*p);
                    let lo = |k: usize| (p[k] - r_p - o[k]).ceil() as i32;
                    let hi = |k: usize| (p[k] + r_p - o[k]).floor() as i32;
                    VoxelBox { x1: lo(0), x2: hi(0), y1: lo(1), y2: hi(1), z1: lo(2), z2: hi(2) }
                })
                .collect(),
            particle_blocks: b.particle_blocks.clone(),
            starts: b.starts.clone(),
            margin: r_p.ceil() as usize,
        }
    };
    let weight = |a: usize, i: usize, x: i32, y: i32, z: i32| {
        let p = array(b.positions[i]).map(|v| v - 0.5);
        let d = [x as f32 - p[0], y as f32 - p[1], z as f32 - p[2]];
        let dist = d[0] * d[0] + (d[2] * d[2] + d[1] * d[1]) + d[a] + 0.25;
        let w = (1.0 - dist * inv_r2).max(0.0);
        w * w * w
    };
    let b = &b;
    let weight = &weight;
    let mass = |a: usize| {
        move |i: usize, x: i32, y: i32, z: i32| bits(weight(a, i, x, y, z) * num(b.mass[i]))
    };
    let momentum = |a: usize| {
        move |i: usize, x: i32, y: i32, z: i32| {
            bits(weight(a, i, x, y, z) * (num(b.mass[i]) * array(b.velocities[i])[a]))
        }
    };
    particles_to_grid(
        mac,
        &t.active,
        &FaceSplat { plan: &plan(X), mass: &mass(X), momentum: &momentum(X) },
        &FaceSplat { plan: &plan(Y), mass: &mass(Y), momentum: &momentum(Y) },
        &FaceSplat { plan: &plan(Z), mass: &mass(Z), momentum: &momentum(Z) },
        &sum,
        &ratio,
    );
}

/// The transfer written down particle by particle.
fn reference(mac: &mut MacGrid<BSX, N>, ps: &Particles, r_p: f32) {
    let dims = GridDims::new(mac.sx(), mac.sy(), mac.sz(), BSX);
    let active = active_blocks(&footprints(ps, &dims, r_p), &dims);
    mac.zero_blocks(&active);
    let inv_r2 = 1.0 / (r_p * r_p);
    let size = [mac.sx() as i32, mac.sy() as i32, mac.sz() as i32];
    for pi in 0..ps.len() {
        let p = array(ps.positions[pi]);
        let m_p = num(ps.mass[pi]);
        let u = array(ps.velocities[pi]);
        for a in 0..3 {
            let o = offsets(a);
            let lo = |k: usize| ((p[k] - r_p - o[k]).ceil() as i32).max(0);
            let hi = |k: usize| ((p[k] + r_p - o[k]).floor() as i32).min(size[k] - 1);
            for k in lo(2)..=hi(2) {
                for j in lo(1)..=hi(1) {
                    for i in lo(0)..=hi(0) {
                        let dx = i as f32 + o[0] - p[0];
                        let dy = j as f32 + o[1] - p[1];
                        let dz = k as f32 + o[2] - p[2];
                        let d2 = dx * dx + dy * dy + dz * dz;
                        if d2 > r_p * r_p {
                            continue;
                        }
                        let w = (1.0 - d2 * inv_r2).max(0.0);
                        let w = w * w * w;
                        let (x, y, z) = (i as usize, j as usize, k as usize);
                        let m = num(mac.mass(a).get_voxel(x, y, z));
                        mac.mass_mut(a).set_voxel(x, y, z, bits(m + w * m_p));
                        let v = num(mac.velocity(a).get_voxel(x, y, z));
                        mac.velocity_mut(a).set_voxel(x, y, z, bits(v + w * m_p * u[a]));
                    }
                }
            }
        }
    }
    mac.normalize_velocity(&active, &ratio);
}

fn compare(a: &MacGrid<BSX, N>, b: &MacGrid<BSX, N>, tol: f32) {
    for dir in 0..3 {
        for k in 0..a.sz() {
            for j in 0..a.sy() {
                for i in 0..a.sx() {
                    let am = num(a.mass(dir).get_voxel(i, j, k));
                    let bm = num(b.mass(dir).get_voxel(i, j, k));
                    assert!((am - bm).abs() <= tol, "mass[{dir}] ({i},{j},{k}): {am} vs {bm}");
                    let av = num(a.velocity(dir).get_voxel(i, j, k));
                    let bv = num(b.velocity(dir).get_voxel(i, j, k));
                    assert!((av - bv).abs() <= tol, "vel[{dir}] ({i},{j},{k}): {av} vs {bv}");
                }
            }
        }
    }
}

#[test]
fn p2g_01_single_particle_matches_reference() {
    let ps = particles(&[[8.0, 8.0, 8.0]], &[[1.0, 2.0, 3.0]], &[1.0]);
    let mut a = make_mac(32);
    let mut b = make_mac(32);
    transfer(&mut a, &ps, 2.0);
    reference(&mut b, &ps, 2.0);
    compare(&a, &b, 1e-4);
}

#[test]
fn p2g_02_rigid_translation_roundtrip() {
    let u = [1.5, -2.0, 0.5];
    let ps = particles(
        &[[8.0, 8.0, 8.0], [12.0, 9.0, 7.0], [9.0, 14.0, 10.0]],
        &[u; 3],
        &[1.0; 3],
    );
    let mut mac = make_mac(32);
    transfer(&mut mac, &ps, 2.0);
    let sampler = MacSampler::new(&mac, BoundaryCondition::Clamp);
    for p in &ps.positions {
        let got = sample(&sampler, array(*p));
        assert!((got[0] - u[0]).abs() < 1e-4, "x: {} vs {}", got[0], u[0]);
        assert!((got[1] - u[1]).abs() < 1e-4, "y: {} vs {}", got[1], u[1]);
        assert!((got[2] - u[2]).abs() < 1e-4, "z: {} vs {}", got[2], u[2]);
    }
}

#[test]
fn p2g_03_block_boundary_crossing() {
    let ps = particles(&[[15.9, 8.0, 8.0]], &[[1.0, 0.0, 0.0]], &[1.0]);
    let mut a = make_mac(32);
    let mut b = make_mac(32);
    transfer(&mut a, &ps, 2.0);
    reference(&mut b, &ps, 2.0);
    compare(&a, &b, 1e-4);
    let any = (0..BSX).any(|i| num(a.mass(X).get_voxel(16 + i, 8, 8)) > 0.0);
    assert!(any, "expected mass in the +x neighbor block");
}

#[test]
fn p2g_04_domain_corner_clip() {
    let ps = particles(&[[0.1, 0.1, 0.1]], &[[1.0, 1.0, 1.0]], &[1.0]);
    let mut a = make_mac(32);
    let mut b = make_mac(32);
    transfer(&mut a, &ps, 2.0);
    reference(&mut b, &ps, 2.0);
    compare(&a, &b, 1e-4);
}

#[test]
fn p2g_05_radius_cull() {
    let ps = particles(&[[8.0, 8.0, 8.0]], &[[1.0, 0.0, 0.0]], &[1.0]);
    let mut mac = make_mac(32);
    transfer(&mut mac, &ps, 2.0);
    assert_eq!(num(mac.mass(X).get_voxel(10, 8, 8)), 0.0);
    assert!(num(mac.mass(X).get_voxel(7, 8, 8)) > 0.0);
}

#[test]
fn p2g_06_overlap_sum_order_independent() {
    let u = [[1.0, 0.0, 0.0]; 2];
    let a_ps = particles(&[[8.0, 8.0, 8.0], [9.0, 8.0, 8.0]], &u, &[1.0; 2]);
    let b_ps = particles(&[[9.0, 8.0, 8.0], [8.0, 8.0, 8.0]], &u, &[1.0; 2]);
    let mut a = make_mac(32);
    let mut b = make_mac(32);
    transfer(&mut a, &a_ps, 2.0);
    transfer(&mut b, &b_ps, 2.0);
    compare(&a, &b, 1e-5);
}

#[test]
fn p2g_07_zero_mass_guard() {
    let ps = particles(&[[8.0, 8.0, 8.0]], &[[1.0, 0.0, 0.0]], &[1.0]);
    let mut mac = make_mac(32);
    transfer(&mut mac, &ps, 2.0);
    assert_eq!(num(mac.velocity(X).get_voxel(20, 20, 20)), 0.0);
    assert!(num(mac.velocity(X).get_voxel(7, 8, 8)).is_finite());
}

// Particles around the corner of eight blocks, and at every side of the domain.
#[test]
fn transfer_of_many_particles_matches_reference() {
    let pos = [
        [15.9, 16.1, 15.8],
        [16.2, 15.7, 16.4],
        [0.2, 31.8, 16.0],
        [31.9, 0.1, 31.7],
        [14.5, 17.5, 3.25],
    ];
    let vel = [[1.0, 0.0, 2.0], [0.5, -1.0, 0.0], [3.0, 1.0, 1.0], [0.0, 0.0, -2.0], [1.0; 3]];
    let ps = particles(&pos, &vel, &[1.0, 2.0, 0.5, 1.0, 3.0]);
    let mut a = make_mac(32);
    let mut b = make_mac(32);
    transfer(&mut a, &ps, 2.5);
    reference(&mut b, &ps, 2.5);
    compare(&a, &b, 1e-4);
}

#[test]
fn particles_keep_their_attributes_together() {
    let ps = Particles {
        positions: (0..5).map(|i| vec3([i as f32; 3])).collect(),
        velocities: (0..5).map(|i| vec3([10.0 * i as f32; 3])).collect(),
        kinds: vec![KIND_LIQUID, KIND_AIR, KIND_LIQUID, KIND_AIR, KIND_AIR],
        mass: (0..5).map(|i| bits(100.0 * i as f32)).collect(),
    };
    assert!(ps.is_consistent());
    assert!(!ps.is_empty());
    let b = bucket_particles(&ps, &vec![4, 2, 4, 2, 7]);
    assert_eq!(b.particle_blocks, vec![2, 4, 7]);
    assert_eq!(b.starts, vec![0, 2, 4, 5]);
    for i in 0..5 {
        let p = array(b.positions[i])[0];
        assert_eq!(array(b.velocities[i]), [10.0 * p; 3]);
        assert_eq!(num(b.mass[i]), 100.0 * p);
        assert_eq!(b.kinds[i], ps.kinds[p as usize]);
    }
    let mut first: Vec<f32> = b.positions[..2].iter().map(|p| num(p.x)).collect();
    first.sort_by(f32::total_cmp);
    assert_eq!(first, vec![1.0, 3.0]);
    let short = Particles { positions: vec![vec3([0.0; 3])], ..particles(&[], &[], &[]) };
    assert!(!short.is_consistent());
    assert!(particles(&[], &[], &[]).is_empty());
}

#[test]
fn zeroing_leaves_other_blocks_alone() {
    let mut mac: MacGrid<2, 8> = MacGrid::new(4, 2, 2, 4, 8);
    mac.zero_blocks(&vec![0, 1]);
    mac.velocity_mut(Y).set_voxel(0, 0, 0, Scalar(5));
    mac.velocity_mut(Y).set_voxel(3, 0, 0, Scalar(6));
    mac.mass_mut(Y).set_voxel(3, 0, 0, Scalar(2));
    mac.zero_blocks(&vec![0]);
    assert_eq!(mac.velocity(Y).get_voxel(0, 0, 0), Scalar(0));
    assert_eq!(mac.velocity(Y).get_voxel(3, 0, 0), Scalar(6));
    mac.normalize_velocity(&vec![1], &|p: Scalar, m: Scalar| Scalar(10 * p.0 + m.0));
    assert_eq!(mac.velocity(Y).get_voxel(3, 0, 0), Scalar(62));
    assert_eq!(mac.mass(Y).get_voxel(3, 0, 0), Scalar(2));
}
