//! Grid to particles: sampling the staggered velocity.

use crate::channel::Scalar;
use crate::fluid::mac::{MacGrid, X, Y, Z};
use crate::math::boundary::{BoundaryCondition, GridAlignment, Interpolation};
use crate::math::sample::Sampler;
use vstd::prelude::*;

verus! {

/// The cell that a position lies in.
#[derive(Clone, Copy, Debug, PartialEq, Eq, Structural)]
pub struct CellIndex {
    pub x: i32,
    pub y: i32,
    pub z: i32,
}

/// Samples a staggered velocity field, one face component after the other.
pub struct MacSampler<'a, const BSX: usize, const N: usize> {
    pub u: Sampler<'a, Scalar, BSX, N>,
    pub v: Sampler<'a, Scalar, BSX, N>,
    pub w: Sampler<'a, Scalar, BSX, N>,
}

/// The window of a cell can be addressed along every axis.
pub open spec fn cell_fits(ip: Interpolation, c: CellIndex) -> bool {
    &&& crate::math::sample::window_fits(ip, c.x)
    &&& crate::math::sample::window_fits(ip, c.y)
    &&& crate::math::sample::window_fits(ip, c.z)
}

/// `r` is what `reduce` makes of the window that a face component has around cell `c`.
pub open spec fn is_component<const BSX: usize, const N: usize, R, F: Fn(&Vec<Scalar>) -> R>(
    s: &Sampler<Scalar, BSX, N>,
    ip: Interpolation,
    c: CellIndex,
    reduce: &F,
    r: R,
) -> bool {
    crate::math::sample::is_reduced(
        reduce,
        crate::math::sample::sample_window::<Scalar, Scalar, BSX, N>(
            s.grid,
            ip,
            c.x as int,
            c.y as int,
            c.z as int,
            s.bc,
        ),
        r,
    )
}

impl<'a, const BSX: usize, const N: usize> MacSampler<'a, BSX, N> {
    /// All three components can be sampled.
    pub open spec fn wf(&self) -> bool {
        self.u.wf() && self.v.wf() && self.w.wf()
    }

    /// The sampler reads the velocities of `mac` with boundary condition `bc`.
    pub open spec fn is_of(&self, mac: &MacGrid<BSX, N>, bc: BoundaryCondition) -> bool {
        &&& self.u.grid == mac.velocity@[0]
        &&& self.v.grid == mac.velocity@[1]
        &&& self.w.grid == mac.velocity@[2]
        &&& self.u.bc == bc && self.v.bc == bc && self.w.bc == bc
        &&& self.u.align == GridAlignment::CellCentered
        &&& self.v.align == GridAlignment::CellCentered
        &&& self.w.align == GridAlignment::CellCentered
    }

    /// Binds the three velocity fields to a boundary condition. The fields are cell-centered; that
    /// each lives on its own faces is in the positions it is asked for.
    pub fn new(mac: &'a MacGrid<BSX, N>, bc: BoundaryCondition) -> (r: Self)
        requires
            mac.wf(),
        ensures
            r.is_of(mac, bc),
            crate::math::gather::addressable(&mac.velocity@[0], bc) ==> r.wf(),
    {
        proof {
            let (sx, sy, sz) = (mac.spec_sx(), mac.spec_sy(), mac.spec_sz());
            assert(crate::fluid::mac::is_face_grid(&mac.velocity@[0], sx, sy, sz));
            assert(crate::fluid::mac::is_face_grid(&mac.velocity@[1], sx, sy, sz));
            assert(crate::fluid::mac::is_face_grid(&mac.velocity@[2], sx, sy, sz));
        }
        MacSampler {
            u: Sampler::new(mac.velocity(X), GridAlignment::CellCentered, bc),
            v: Sampler::new(mac.velocity(Y), GridAlignment::CellCentered, bc),
            w: Sampler::new(mac.velocity(Z), GridAlignment::CellCentered, bc),
        }
    }

    /// `r` has each component as its own field and reduction give it in its own cell.
    pub open spec fn is_velocity<
        R,
        FU: Fn(&Vec<Scalar>) -> R,
        FV: Fn(&Vec<Scalar>) -> R,
        FW: Fn(&Vec<Scalar>) -> R,
    >(
        &self,
        ip: Interpolation,
        at_u: CellIndex,
        at_v: CellIndex,
        at_w: CellIndex,
        fu: &FU,
        fv: &FV,
        fw: &FW,
        r: (R, R, R),
    ) -> bool {
        &&& is_component(&self.u, ip, at_u, fu, r.0)
        &&& is_component(&self.v, ip, at_v, fv, r.1)
        &&& is_component(&self.w, ip, at_w, fw, r.2)
    }

    /// Samples each component in its own cell, with its own reduction.
    pub fn sample<
        R,
        FU: Fn(&Vec<Scalar>) -> R,
        FV: Fn(&Vec<Scalar>) -> R,
        FW: Fn(&Vec<Scalar>) -> R,
    >(
        &self,
        ip: Interpolation,
        at_u: CellIndex,
        at_v: CellIndex,
        at_w: CellIndex,
        fu: &FU,
        fv: &FV,
        fw: &FW,
    ) -> (r: (R, R, R))
        requires
            self.wf(),
            cell_fits(ip, at_u),
            cell_fits(ip, at_v),
            cell_fits(ip, at_w),
            forall|w: Vec<Scalar>| #[trigger] call_requires(*fu, (&w,)),
            forall|w: Vec<Scalar>| #[trigger] call_requires(*fv, (&w,)),
            forall|w: Vec<Scalar>| #[trigger] call_requires(*fw, (&w,)),
        ensures
            self.is_velocity(ip, at_u, at_v, at_w, fu, fv, fw, r),
    {
        (
            self.u.sample(ip, at_u.x, at_u.y, at_u.z, fu),
            self.v.sample(ip, at_v.x, at_v.y, at_v.z, fv),
            self.w.sample(ip, at_w.x, at_w.y, at_w.z, fw),
        )
    }
}

/// A component is made of the values of its own grid around its own cell: `reduce` gets the eight
/// of the cell and the next one along each axis, or the 64 from one before to two behind, x
/// fastest.
pub proof fn law_component_reads_its_cell<
    const BSX: usize,
    const N: usize,
    R,
    F: Fn(&Vec<Scalar>) -> R,
>(s: &Sampler<Scalar, BSX, N>, ip: Interpolation, c: CellIndex, reduce: &F, r: R) -> (w: Vec<Scalar>)
    requires
        is_component(s, ip, c, reduce, r),
    ensures
        call_ensures(*reduce, (&w,), r),
        ip == Interpolation::Linear ==> w@.len() == 8 && forall|i: int, j: int, k: int|
            0 <= i < 2 && 0 <= j < 2 && 0 <= k < 2 ==> w@[#[trigger] crate::layout::index3(
                i,
                j,
                k,
                2,
                2,
            )] == crate::math::gather::element_at(s.grid, c.x + i, c.y + j, c.z + k, s.bc),
        ip == Interpolation::CubicBSpline ==> w@.len() == 64 && forall|i: int, j: int, k: int|
            -1 <= i <= 2 && -1 <= j <= 2 && -1 <= k <= 2
                ==> w@[#[trigger] crate::layout::index3(i + 1, j + 1, k + 1, 4, 4)]
                == crate::math::gather::element_at(s.grid, c.x + i, c.y + j, c.z + k, s.bc),
{
    let window = crate::math::sample::sample_window::<Scalar, Scalar, BSX, N>(
        s.grid,
        ip,
        c.x as int,
        c.y as int,
        c.z as int,
        s.bc,
    );
    crate::math::sample::law_sample_windows::<Scalar, Scalar, BSX, N>(
        s.grid,
        c.x as int,
        c.y as int,
        c.z as int,
        s.bc,
    );
    choose|w: Vec<Scalar>| w@ == window && #[trigger] call_ensures(*reduce, (&w,), r)
}

/// A velocity that is sampled linearly has each component from the eight values of its own field
/// around its own cell, x fastest.
pub proof fn law_velocity_by_components<
    'a,
    const BSX: usize,
    const N: usize,
    R,
    FU: Fn(&Vec<Scalar>) -> R,
    FV: Fn(&Vec<Scalar>) -> R,
    FW: Fn(&Vec<Scalar>) -> R,
>(
    s: &MacSampler<'a, BSX, N>,
    mac: &MacGrid<BSX, N>,
    bc: BoundaryCondition,
    at_u: CellIndex,
    at_v: CellIndex,
    at_w: CellIndex,
    fu: &FU,
    fv: &FV,
    fw: &FW,
    r: (R, R, R),
) -> (w: (Vec<Scalar>, Vec<Scalar>, Vec<Scalar>))
    requires
        s.is_of(mac, bc),
        s.is_velocity(Interpolation::Linear, at_u, at_v, at_w, fu, fv, fw, r),
    ensures
        call_ensures(*fu, (&w.0,), r.0),
        call_ensures(*fv, (&w.1,), r.1),
        call_ensures(*fw, (&w.2,), r.2),
        forall|i: int, j: int, k: int|
            0 <= i < 2 && 0 <= j < 2 && 0 <= k < 2 ==> {
                let at = #[trigger] crate::layout::index3(i, j, k, 2, 2);
                &&& w.0@[at] == crate::math::gather::element_at(
                    &mac.velocity@[0],
                    at_u.x + i,
                    at_u.y + j,
                    at_u.z + k,
                    bc,
                )
                &&& w.1@[at] == crate::math::gather::element_at(
                    &mac.velocity@[1],
                    at_v.x + i,
                    at_v.y + j,
                    at_v.z + k,
                    bc,
                )
                &&& w.2@[at] == crate::math::gather::element_at(
                    &mac.velocity@[2],
                    at_w.x + i,
                    at_w.y + j,
                    at_w.z + k,
                    bc,
                )
            },
{
    let ip = Interpolation::Linear;
    let a = law_component_reads_its_cell(&s.u, ip, at_u, fu, r.0);
    let b = law_component_reads_its_cell(&s.v, ip, at_v, fv, r.1);
    let c = law_component_reads_its_cell(&s.w, ip, at_w, fw, r.2);
    (a, b, c)
}

} // verus!
