//! The 19-tap mean-curvature kernel.

use crate::multires::halo::HaloBlock;
use vstd::prelude::*;

verus! {

/// The offsets that the kernel reads.
pub open spec fn offsets() -> Seq<(int, int, int)> {
    crate::math::stencil::face_offsets() + crate::math::stencil::edge_offsets()
}

/// `r` is what the kernel gives for voxel `(x, y, z)`: `update` of its taps.
pub open spec fn is_smoothed<
    O: Copy + Default,
    R,
    const BSX: usize,
    const HSX: usize,
    F: Fn([O; 19]) -> R,
>(halo: &HaloBlock<O, BSX, HSX>, update: &F, x: int, y: int, z: int, r: R) -> bool {
    exists|a: [O; 19]|
        a@ == crate::math::stencil::taps(halo, x + 1, y + 1, z + 1, offsets())
            && #[trigger] call_ensures(*update, (a,), r)
}

/// `r` is what the kernel gives for the voxels of the block, x fastest.
pub open spec fn is_smoothed_block<
    O: Copy + Default,
    R,
    const BSX: usize,
    const HSX: usize,
    F: Fn([O; 19]) -> R,
>(
    halo: &HaloBlock<O, BSX, HSX>,
    update: &F,
    r: Seq<R>,
) -> bool {
    &&& r.len() == BSX * BSX * BSX
    &&& forall|x: usize, y: usize, z: usize|
        x < BSX && y < BSX && z < BSX ==> is_smoothed(
            halo,
            update,
            x as int,
            y as int,
            z as int,
            r[#[trigger] crate::layout::index3(
                x as int,
                y as int,
                z as int,
                BSX as int,
                BSX as int,
            )],
        )
}

/// Updates every voxel of the block from its 19 taps in a halo of one voxel: the voxel itself, the six
/// that share a face with it and the twelve that share an edge.
pub fn kernel_meancurv<
    O: Copy + Default,
    R,
    const BSX: usize,
    const HSX: usize,
    F: Fn([O; 19]) -> R,
>(halo: &HaloBlock<O, BSX, HSX>, update: &F) -> (r: Vec<R>)
    requires
        halo.wf(),
        HSX == BSX + 2,
        HSX * HSX * HSX <= usize::MAX,
        forall|a: [O; 19]| #[trigger] call_requires(*update, (a,)),
    ensures
        is_smoothed_block(halo, update, r@),
{
    let voxel = |x: usize, y: usize, z: usize| -> (r: R)
        requires
            halo.wf(),
            HSX == BSX + 2,
            HSX * HSX * HSX <= usize::MAX,
            forall|a: [O; 19]| #[trigger] call_requires(*update, (a,)),
            x < BSX,
            y < BSX,
            z < BSX,
        ensures
            is_smoothed(halo, update, x as int, y as int, z as int, r),
    {
        let a: [O; 19] = [
            halo.get(x + 1, y + 1, z + 1),
            halo.get(x, y + 1, z + 1),
            halo.get(x + 2, y + 1, z + 1),
            halo.get(x + 1, y, z + 1),
            halo.get(x + 1, y + 2, z + 1),
            halo.get(x + 1, y + 1, z),
            halo.get(x + 1, y + 1, z + 2),
            halo.get(x + 2, y + 2, z + 1),
            halo.get(x + 2, y, z + 1),
            halo.get(x, y + 2, z + 1),
            halo.get(x, y, z + 1),
            halo.get(x + 2, y + 1, z + 2),
            halo.get(x + 2, y + 1, z),
            halo.get(x, y + 1, z + 2),
            halo.get(x, y + 1, z),
            halo.get(x + 1, y + 2, z + 2),
            halo.get(x + 1, y + 2, z),
            halo.get(x + 1, y, z + 2),
            halo.get(x + 1, y, z),
        ];
        assert(a@ =~= crate::math::stencil::taps(halo, x + 1, y + 1, z + 1, offsets()));
        update(a)
    };
    proof {
        crate::math::stencil::lemma_cube_le(BSX as int, HSX as int);
    }
    crate::layout::map_cube(BSX, &voxel)
}

/// A voxel is updated from itself, its neighbours before and behind it along x, y and z, and the
/// twelve diagonal ones: those in the plane of x and y, of x and z, and of y and z. In the cube, a
/// step along x is one element, one along y a row, one along z a layer.
pub proof fn law_reads_nineteen<
    O: Copy + Default,
    R,
    const BSX: usize,
    const HSX: usize,
    F: Fn([O; 19]) -> R,
>(halo: &HaloBlock<O, BSX, HSX>, update: &F, x: int, y: int, z: int, r: R) -> (a: [O; 19])
    requires
        is_smoothed(halo, update, x, y, z, r),
    ensures
        call_ensures(*update, (a,), r),
        ({
            let h = HSX as int;
            let i = (x + 1) + h * (y + 1) + h * h * (z + 1);
            &&& a@[0] == halo.data@[i]
            &&& a@[1] == halo.data@[i - 1] && a@[2] == halo.data@[i + 1]
            &&& a@[3] == halo.data@[i - h] && a@[4] == halo.data@[i + h]
            &&& a@[5] == halo.data@[i - h * h] && a@[6] == halo.data@[i + h * h]
            &&& a@[7] == halo.data@[i + 1 + h]
            &&& a@[8] == halo.data@[i + 1 - h]
            &&& a@[9] == halo.data@[i - 1 + h]
            &&& a@[10] == halo.data@[i - 1 - h]
            &&& a@[11] == halo.data@[i + 1 + h * h]
            &&& a@[12] == halo.data@[i + 1 - h * h]
            &&& a@[13] == halo.data@[i - 1 + h * h]
            &&& a@[14] == halo.data@[i - 1 - h * h]
            &&& a@[15] == halo.data@[i + h + h * h]
            &&& a@[16] == halo.data@[i + h - h * h]
            &&& a@[17] == halo.data@[i - h + h * h]
            &&& a@[18] == halo.data@[i - h - h * h]
        }),
{
    let h = HSX as int;
    let a = choose|a: [O; 19]|
        a@ == crate::math::stencil::taps(halo, x + 1, y + 1, z + 1, offsets())
            && #[trigger] call_ensures(*update, (a,), r);
    assert forall|k: int| 0 <= k < 19 implies #[trigger] a@[k] == halo.data@[(x + 1) + h * (y + 1)
        + h * h * (z + 1) + offsets()[k].0 + crate::math::stencil::steps(offsets()[k].1, h)
            + crate::math::stencil::steps(offsets()[k].2, h * h)] by {
        crate::math::stencil::lemma_tap(halo, x + 1, y + 1, z + 1, offsets(), k);
    }
    a
}

/// What the kernel gives for voxel `(x, y, z)` stands at its place in the block, x fastest.
pub proof fn law_block_in_rows<
    O: Copy + Default,
    R,
    const BSX: usize,
    const HSX: usize,
    F: Fn([O; 19]) -> R,
>(
    halo: &HaloBlock<O, BSX, HSX>,
    update: &F,
    r: Seq<R>,
    x: int,
    y: int,
    z: int,
)
    requires
        is_smoothed_block(halo, update, r),
        0 <= x < BSX,
        0 <= y < BSX,
        0 <= z < BSX,
    ensures
        r.len() == BSX * BSX * BSX,
        is_smoothed(halo, update, x, y, z, r[x + BSX * y + BSX * BSX * z]),
{
    let b = BSX as int;
    crate::layout::law_coords_of_cell(x, y, z, b, b, b);
    let (i, j, k) = (x as usize, y as usize, z as usize);
    let at = crate::layout::index3(i as int, j as int, k as int, b, b);
    assert(is_smoothed(halo, update, x, y, z, r[at]));
}

} // verus!
