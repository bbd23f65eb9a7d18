//! Field sampling: which voxels a sample of a sparse grid is made from.
//!
//! A sampler binds a grid to an alignment and a boundary condition. It gathers the window of voxels
//! around a position and hands it to a reduction, which weighs it.

use crate::channel::Vec3;
use crate::math::boundary::{BoundaryCondition, GridAlignment, Interpolation};
use crate::math::gather::{gather_map, Dequant};
use crate::sparse_grid::SparseGrid;
use vstd::prelude::*;

verus! {

/// Element type of a channel that is sampled as `O`.
pub trait InterpElem<O>: Dequant<O> {

}

impl<O, T: Dequant<O>> InterpElem<O> for T {

}

/// Element type of a vector channel.
pub trait InterpVec3Elem: Dequant<Vec3> {

}

impl<T: Dequant<Vec3>> InterpVec3Elem for T {

}

/// The window of `side` voxels along each axis that starts at `(ix, iy, iz)`, x fastest.
pub open spec fn window_at<T, O, const BSX: usize, const N: usize>(
    grid: &SparseGrid<T, BSX, N>,
    ix: int,
    iy: int,
    iz: int,
    bc: BoundaryCondition,
    side: int,
) -> Seq<O> where T: Dequant<O> {
    Seq::new(
        (side * side * side) as nat,
        |t: int|
            crate::math::gather::element_at(
                grid,
                ix + crate::layout::coord_x(t, side),
                iy + crate::layout::coord_y(t, side, side),
                iz + crate::layout::coord_z(t, side, side),
                bc,
            ).spec_dequant(),
    )
}

/// Voxels along each axis of the window that the interpolation reads.
pub open spec fn window_side(ip: Interpolation) -> int {
    match ip {
        Interpolation::Linear => 2,
        Interpolation::CubicBSpline => 4,
    }
}

/// How far before the cell of the position the window starts.
pub open spec fn window_lead(ip: Interpolation) -> int {
    match ip {
        Interpolation::Linear => 0,
        Interpolation::CubicBSpline => 1,
    }
}

/// A cell index whose window can be addressed.
pub open spec fn window_fits(ip: Interpolation, i: i32) -> bool {
    i32::MIN <= i - window_lead(ip) && i - window_lead(ip) + window_side(ip) - 1 <= i32::MAX
}

/// Positions are shifted by half a cell.
pub open spec fn half_shifted(ip: Interpolation, align: GridAlignment) -> bool {
    ip == Interpolation::CubicBSpline || align == GridAlignment::CellCentered
}

/// Whether positions are shifted by half a cell before they are split into cell and fraction. The
/// cubic basis is cell-centered, whatever the alignment.
pub fn is_half_shifted(ip: Interpolation, align: GridAlignment) -> (r: bool)
    ensures
        r == half_shifted(ip, align),
{
    match ip {
        Interpolation::Linear => match align {
            GridAlignment::Corner => false,
            GridAlignment::CellCentered => true,
        },
        Interpolation::CubicBSpline => true,
    }
}

fn gather_window<T, O, const BSX: usize, const N: usize>(
    grid: &SparseGrid<T, BSX, N>,
    ix: i32,
    iy: i32,
    iz: i32,
    bc: BoundaryCondition,
    side: usize,
) -> (r: Vec<O>) where T: InterpElem<O>, O: Copy + Default
    requires
        grid.wf(),
        crate::math::gather::addressable(grid, bc),
        1 <= side <= 4,
        ix + side - 1 <= i32::MAX,
        iy + side - 1 <= i32::MAX,
        iz + side - 1 <= i32::MAX,
    ensures
        r@ == window_at::<T, O, BSX, N>(grid, ix as int, iy as int, iz as int, bc, side as int),
{
    let ghost n = side as int;
    proof {
        assert(n * n * n <= 64) by (nonlinear_arith)
            requires
                1 <= n <= 4,
        ;
        assert(n * n <= 16) by (nonlinear_arith)
            requires
                1 <= n <= 4,
        ;
    }
    let mut out: Vec<O> = crate::arith::filled(side * side * side, O::default());
    gather_map(grid, ix, iy, iz, bc, side - 1, out.as_mut_slice());
    proof {
        let w = window_at::<T, O, BSX, N>(grid, ix as int, iy as int, iz as int, bc, n);
        assert forall|t: int| 0 <= t < n * n * n implies #[trigger] out@[t] == w[t] by {
            crate::layout::lemma_coords3(t, n, n, n);
            let i = crate::layout::coord_x(t, n);
            let j = crate::layout::coord_y(t, n, n);
            let k = crate::layout::coord_z(t, n, n);
            assert(crate::layout::index3(i, j, k, side - 1 + 1, side - 1 + 1) == t);
        }
        assert(out@ =~= w);
    }
    out
}

/// Gathers the eight corners of the cell at `(ix, iy, iz)`.
pub fn gather_linear<T, O, const BSX: usize, const N: usize>(
    grid: &SparseGrid<T, BSX, N>,
    ix: i32,
    iy: i32,
    iz: i32,
    bc: BoundaryCondition,
) -> (r: Vec<O>) where T: InterpElem<O>, O: Copy + Default
    requires
        grid.wf(),
        crate::math::gather::addressable(grid, bc),
        ix < i32::MAX,
        iy < i32::MAX,
        iz < i32::MAX,
    ensures
        r@ == window_at::<T, O, BSX, N>(grid, ix as int, iy as int, iz as int, bc, 2),
{
    gather_window(grid, ix, iy, iz, bc, 2)
}

/// Gathers the window of four voxels along each axis that starts at `(ix, iy, iz)`.
pub fn gather_cubic<T, O, const BSX: usize, const N: usize>(
    grid: &SparseGrid<T, BSX, N>,
    ix: i32,
    iy: i32,
    iz: i32,
    bc: BoundaryCondition,
) -> (r: Vec<O>) where T: InterpElem<O>, O: Copy + Default
    requires
        grid.wf(),
        crate::math::gather::addressable(grid, bc),
        ix + 3 <= i32::MAX,
        iy + 3 <= i32::MAX,
        iz + 3 <= i32::MAX,
    ensures
        r@ == window_at::<T, O, BSX, N>(grid, ix as int, iy as int, iz as int, bc, 4),
{
    gather_window(grid, ix, iy, iz, bc, 4)
}

/// The window that a sample in cell `(ix, iy, iz)` is made from.
pub open spec fn sample_window<T, O, const BSX: usize, const N: usize>(
    grid: &SparseGrid<T, BSX, N>,
    ip: Interpolation,
    ix: int,
    iy: int,
    iz: int,
    bc: BoundaryCondition,
) -> Seq<O> where T: Dequant<O> {
    let lead = window_lead(ip);
    window_at(grid, ix - lead, iy - lead, iz - lead, bc, window_side(ip))
}

/// `r` is what `reduce` makes of the window.
pub open spec fn is_reduced<O, R, F: Fn(&Vec<O>) -> R>(reduce: &F, window: Seq<O>, r: R) -> bool {
    exists|w: Vec<O>| w@ == window && #[trigger] call_ensures(*reduce, (&w,), r)
}

/// `r` is what `reduce` makes of the window around cell `(ix, iy, iz)`.
pub open spec fn is_sampled<T, O, const BSX: usize, const N: usize, R, F: Fn(&Vec<O>) -> R>(
    grid: &SparseGrid<T, BSX, N>,
    bc: BoundaryCondition,
    ip: Interpolation,
    ix: i32,
    iy: i32,
    iz: i32,
    reduce: &F,
    r: R,
) -> bool where T: Dequant<O> {
    is_reduced(
        reduce,
        sample_window::<T, O, BSX, N>(grid, ip, ix as int, iy as int, iz as int, bc),
        r,
    )
}

/// A scalar sampler: a grid with a fixed alignment and boundary condition.
pub struct Sampler<'a, T, const BSX: usize, const N: usize> where T: Copy + Default + Send + Sync {
    pub grid: &'a SparseGrid<T, BSX, N>,
    pub align: GridAlignment,
    pub bc: BoundaryCondition,
}

impl<'a, T, const BSX: usize, const N: usize> Sampler<'a, T, BSX, N> where
    T: Copy + Default + Send + Sync,
 {
    /// The grid can be sampled.
    pub open spec fn wf(&self) -> bool {
        self.grid.wf() && crate::math::gather::addressable(self.grid, self.bc)
    }

    /// Binds a grid to an alignment and a boundary condition.
    pub fn new(grid: &'a SparseGrid<T, BSX, N>, align: GridAlignment, bc: BoundaryCondition) -> (r:
        Self)
        ensures
            r.grid == grid,
            r.align == align,
            r.bc == bc,
    {
        Sampler { grid, align, bc }
    }

    /// Reduces the window of a position: the eight corners of its cell, or the 64 voxels around it
    /// for the cubic basis. `(ix, iy, iz)` is the cell of the position, after the shift that
    /// `is_half_shifted` asks for.
    pub fn sample<O, R, F: Fn(&Vec<O>) -> R>(
        &self,
        ip: Interpolation,
        ix: i32,
        iy: i32,
        iz: i32,
        reduce: &F,
    ) -> (r: R) where T: InterpElem<O>, O: Copy + Default
        requires
            self.wf(),
            window_fits(ip, ix),
            window_fits(ip, iy),
            window_fits(ip, iz),
            forall|w: Vec<O>| #[trigger] call_requires(*reduce, (&w,)),
        ensures
            is_sampled(self.grid, self.bc, ip, ix, iy, iz, reduce, r),
    {
        let w: Vec<O> = match ip {
            Interpolation::Linear => gather_linear(self.grid, ix, iy, iz, self.bc),
            Interpolation::CubicBSpline => gather_cubic(self.grid, ix - 1, iy - 1, iz - 1, self.bc),
        };
        reduce(&w)
    }

    /// Reduces the window of a position to a gradient: the same voxels as for a value.
    pub fn gradient<O, R, F: Fn(&Vec<O>) -> R>(
        &self,
        ip: Interpolation,
        ix: i32,
        iy: i32,
        iz: i32,
        reduce: &F,
    ) -> (r: R) where T: InterpElem<O>, O: Copy + Default
        requires
            self.wf(),
            window_fits(ip, ix),
            window_fits(ip, iy),
            window_fits(ip, iz),
            forall|w: Vec<O>| #[trigger] call_requires(*reduce, (&w,)),
        ensures
            is_sampled(self.grid, self.bc, ip, ix, iy, iz, reduce, r),
    {
        self.sample(ip, ix, iy, iz, reduce)
    }

    /// Reduces the cubic window of a position, from which second derivatives are taken whatever the
    /// interpolation is elsewhere.
    pub fn hessian<O, R, F: Fn(&Vec<O>) -> R>(&self, ix: i32, iy: i32, iz: i32, reduce: &F) -> (r:
        R) where T: InterpElem<O>, O: Copy + Default
        requires
            self.wf(),
            window_fits(Interpolation::CubicBSpline, ix),
            window_fits(Interpolation::CubicBSpline, iy),
            window_fits(Interpolation::CubicBSpline, iz),
            forall|w: Vec<O>| #[trigger] call_requires(*reduce, (&w,)),
        ensures
            is_sampled(self.grid, self.bc, Interpolation::CubicBSpline, ix, iy, iz, reduce, r),
    {
        self.sample(Interpolation::CubicBSpline, ix, iy, iz, reduce)
    }
}

/// A vector-field sampler.
pub struct SamplerVec3<'a, T, const BSX: usize, const N: usize> where T: InterpVec3Elem {
    pub grid: &'a SparseGrid<T, BSX, N>,
    pub align: GridAlignment,
    pub bc: BoundaryCondition,
}

impl<'a, T, const BSX: usize, const N: usize> SamplerVec3<'a, T, BSX, N> where T: InterpVec3Elem {
    /// The grid can be sampled.
    pub open spec fn wf(&self) -> bool {
        self.grid.wf() && crate::math::gather::addressable(self.grid, self.bc)
    }

    /// Binds a grid to an alignment and a boundary condition.
    pub fn new(grid: &'a SparseGrid<T, BSX, N>, align: GridAlignment, bc: BoundaryCondition) -> (r:
        Self)
        ensures
            r.grid == grid,
            r.align == align,
            r.bc == bc,
    {
        SamplerVec3 { grid, align, bc }
    }

    /// Reduces the window of a position, as for a scalar field.
    pub fn sample<R, F: Fn(&Vec<Vec3>) -> R>(
        &self,
        ip: Interpolation,
        ix: i32,
        iy: i32,
        iz: i32,
        reduce: &F,
    ) -> (r: R)
        requires
            self.wf(),
            window_fits(ip, ix),
            window_fits(ip, iy),
            window_fits(ip, iz),
            forall|w: Vec<Vec3>| #[trigger] call_requires(*reduce, (&w,)),
        ensures
            is_sampled(self.grid, self.bc, ip, ix, iy, iz, reduce, r),
    {
        let s = Sampler { grid: self.grid, align: self.align, bc: self.bc };
        s.sample(ip, ix, iy, iz, reduce)
    }
}

/// Inside the domain a linear window holds the corners of the cell, and the boundary condition does
/// not matter.
pub proof fn law_linear_window_inside<T, O, const BSX: usize, const N: usize>(
    grid: &SparseGrid<T, BSX, N>,
    ix: int,
    iy: int,
    iz: int,
    bc: BoundaryCondition,
    i: int,
    j: int,
    k: int,
) where T: Dequant<O>
    requires
        0 <= ix < grid.sx - 1,
        0 <= iy < grid.sy - 1,
        0 <= iz < grid.sz - 1,
        0 <= i < 2,
        0 <= j < 2,
        0 <= k < 2,
    ensures
        sample_window::<T, O, BSX, N>(grid, Interpolation::Linear, ix, iy, iz, bc)[i + 2 * j + 4 * k]
            == grid.voxel(ix + i, iy + j, iz + k).spec_dequant(),
{
    crate::layout::lemma_index3(i, j, k, 2, 2, 2);
    assert(crate::layout::index3(i, j, k, 2, 2) == i + 2 * j + 4 * k);
}

/// A cubic window starts one voxel before the linear window of the same cell and holds it in its
/// middle.
pub proof fn law_cubic_window_holds_linear<T, O, const BSX: usize, const N: usize>(
    grid: &SparseGrid<T, BSX, N>,
    ix: int,
    iy: int,
    iz: int,
    bc: BoundaryCondition,
    i: int,
    j: int,
    k: int,
) where T: Dequant<O>
    requires
        0 <= i < 2,
        0 <= j < 2,
        0 <= k < 2,
    ensures
        sample_window::<T, O, BSX, N>(grid, Interpolation::CubicBSpline, ix, iy, iz, bc)[(i + 1) + 4
            * (j + 1) + 16 * (k + 1)] == sample_window::<T, O, BSX, N>(
            grid,
            Interpolation::Linear,
            ix,
            iy,
            iz,
            bc,
        )[i + 2 * j + 4 * k],
{
    crate::layout::lemma_index3(i, j, k, 2, 2, 2);
    assert(crate::layout::index3(i, j, k, 2, 2) == i + 2 * j + 4 * k);
    crate::layout::lemma_index3(i + 1, j + 1, k + 1, 4, 4, 4);
    assert(crate::layout::index3(i + 1, j + 1, k + 1, 4, 4) == (i + 1) + 4 * (j + 1) + 16 * (k + 1));
}

/// Cell `(i, j, k)` of a window, x fastest, is the element that many steps from the corner it starts
/// at, whatever boundary condition says of it.
pub proof fn law_window_cells<T, O, const BSX: usize, const N: usize>(
    grid: &SparseGrid<T, BSX, N>,
    ix: int,
    iy: int,
    iz: int,
    bc: BoundaryCondition,
    side: int,
    i: int,
    j: int,
    k: int,
) where T: Dequant<O>
    requires
        0 <= i < side,
        0 <= j < side,
        0 <= k < side,
    ensures
        window_at::<T, O, BSX, N>(grid, ix, iy, iz, bc, side).len() == side * side * side,
        window_at::<T, O, BSX, N>(grid, ix, iy, iz, bc, side)[i + side * j + side * side * k]
            == crate::math::gather::element_at(grid, ix + i, iy + j, iz + k, bc).spec_dequant(),
{
    crate::layout::lemma_index3(i, j, k, side, side, side);
    assert(crate::layout::index3(i, j, k, side, side) == i + side * j + side * side * k)
        by (nonlinear_arith)
        requires
            crate::layout::index3(i, j, k, side, side) == i + j * side + k * (side * side),
    ;
}

/// What is sampled around cell `(ix, iy, iz)`: the linear window is the cell and the next one along
/// each axis, the cubic one reaches from one cell before it to two behind.
pub proof fn law_sample_windows<T, O, const BSX: usize, const N: usize>(
    grid: &SparseGrid<T, BSX, N>,
    ix: int,
    iy: int,
    iz: int,
    bc: BoundaryCondition,
)
    where T: Dequant<O>
    ensures
        sample_window::<T, O, BSX, N>(grid, Interpolation::Linear, ix, iy, iz, bc).len() == 8,
        forall|i: int, j: int, k: int|
            0 <= i < 2 && 0 <= j < 2 && 0 <= k < 2 ==> #[trigger] sample_window::<T, O, BSX, N>(
                grid,
                Interpolation::Linear,
                ix,
                iy,
                iz,
                bc,
            )[crate::layout::index3(i, j, k, 2, 2)] == crate::math::gather::element_at(
                grid,
                ix + i,
                iy + j,
                iz + k,
                bc,
            ).spec_dequant(),
        sample_window::<T, O, BSX, N>(grid, Interpolation::CubicBSpline, ix, iy, iz, bc).len() == 64,
        forall|i: int, j: int, k: int|
            -1 <= i <= 2 && -1 <= j <= 2 && -1 <= k <= 2 ==> #[trigger] sample_window::<
                T,
                O,
                BSX,
                N,
            >(grid, Interpolation::CubicBSpline, ix, iy, iz, bc)[crate::layout::index3(
                i + 1,
                j + 1,
                k + 1,
                4,
                4,
            )] == crate::math::gather::element_at(grid, ix + i, iy + j, iz + k, bc).spec_dequant(),
{
    assert forall|i: int, j: int, k: int|
        0 <= i < 2 && 0 <= j < 2 && 0 <= k < 2 implies #[trigger] sample_window::<T, O, BSX, N>(
        grid,
        Interpolation::Linear,
        ix,
        iy,
        iz,
        bc,
    )[crate::layout::index3(i, j, k, 2, 2)] == crate::math::gather::element_at(
        grid,
        ix + i,
        iy + j,
        iz + k,
        bc,
    ).spec_dequant() by {
        crate::layout::lemma_index3(i, j, k, 2, 2, 2);
    }
    assert forall|i: int, j: int, k: int|
        -1 <= i <= 2 && -1 <= j <= 2 && -1 <= k <= 2 implies #[trigger] sample_window::<
        T,
        O,
        BSX,
        N,
    >(grid, Interpolation::CubicBSpline, ix, iy, iz, bc)[crate::layout::index3(
        i + 1,
        j + 1,
        k + 1,
        4,
        4,
    )] == crate::math::gather::element_at(grid, ix + i, iy + j, iz + k, bc).spec_dequant() by {
        crate::layout::lemma_index3(i + 1, j + 1, k + 1, 4, 4, 4);
    }
}

/// The alignment decides the shift for linear interpolation, and nothing for the cubic basis, which
/// is always shifted.
pub proof fn law_half_shift(align: GridAlignment)
    ensures
        half_shifted(Interpolation::Linear, align) <==> align != GridAlignment::Corner,
        half_shifted(Interpolation::CubicBSpline, align),
{
}

/// A sample is made of the elements around its cell: `reduce` gets the eight of the cell and the
/// next one along each axis, or for the cubic basis the 64 from one before to two behind, x
/// fastest.
pub proof fn law_sample_reads_its_cell<
    T,
    O,
    const BSX: usize,
    const N: usize,
    R,
    F: Fn(&Vec<O>) -> R,
>(
    grid: &SparseGrid<T, BSX, N>,
    bc: BoundaryCondition,
    ip: Interpolation,
    ix: i32,
    iy: i32,
    iz: i32,
    reduce: &F,
    r: R,
) -> (w: Vec<O>) where T: Dequant<O>
    requires
        is_sampled(grid, bc, ip, ix, iy, iz, reduce, r),
    ensures
        call_ensures(*reduce, (&w,), r),
        ip == Interpolation::Linear ==> w@.len() == 8 && forall|i: int, j: int, k: int|
            0 <= i < 2 && 0 <= j < 2 && 0 <= k < 2 ==> w@[#[trigger] crate::layout::index3(
                i,
                j,
                k,
                2,
                2,
            )] == crate::math::gather::element_at(grid, ix + i, iy + j, iz + k, bc).spec_dequant(),
        ip == Interpolation::CubicBSpline ==> w@.len() == 64 && forall|i: int, j: int, k: int|
            -1 <= i <= 2 && -1 <= j <= 2 && -1 <= k <= 2
                ==> w@[#[trigger] crate::layout::index3(i + 1, j + 1, k + 1, 4, 4)]
                == crate::math::gather::element_at(grid, ix + i, iy + j, iz + k, bc).spec_dequant(),
{
    let window = sample_window::<T, O, BSX, N>(grid, ip, ix as int, iy as int, iz as int, bc);
    law_sample_windows::<T, O, BSX, N>(grid, ix as int, iy as int, iz as int, bc);
    choose|w: Vec<O>| w@ == window && #[trigger] call_ensures(*reduce, (&w,), r)
}

} // verus!
