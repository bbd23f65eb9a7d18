//! The 7-point Laplacian kernel.

use crate::multires::blockinfo::cell_is_fluid;
use crate::multires::halo::HaloBlock;
use vstd::prelude::*;

verus! {

/// The offsets that the kernel reads.
pub open spec fn offsets() -> Seq<(int, int, int)> {
    crate::math::stencil::face_offsets()
}

/// `r` is what the kernel gives for voxel `(x, y, z)`: `update` of its taps where the cell is fluid,
/// and else the value that it has.
pub open spec fn is_smoothed<
    O: Copy + Default,
    const BSX: usize,
    const HSX: usize,
    F: Fn([O; 7]) -> O,
>(
    halo: &HaloBlock<O, BSX, HSX>,
    flags: Seq<u16>,
    update: &F,
    x: int,
    y: int,
    z: int,
    r: O,
) -> bool {
    let cell = flags[crate::layout::index3(x, y, z, BSX as int, BSX as int)];
    if cell & crate::multires::blockinfo::CELL_SOLID == 0 && cell
        & crate::multires::blockinfo::CELL_VOID == 0 {
        exists|a: [O; 7]|
            a@ == crate::math::stencil::taps(halo, x + 1, y + 1, z + 1, offsets())
                && #[trigger] call_ensures(*update, (a,), r)
    } else {
        r == halo.at(x + 1, y + 1, z + 1)
    }
}

/// `r` is what the kernel gives for the voxels of the block, x fastest.
pub open spec fn is_smoothed_block<
    O: Copy + Default,
    const BSX: usize,
    const HSX: usize,
    F: Fn([O; 7]) -> O,
>(
    halo: &HaloBlock<O, BSX, HSX>,
    flags: Seq<u16>,
    update: &F,
    r: Seq<O>,
) -> bool {
    &&& r.len() == BSX * BSX * BSX
    &&& forall|x: usize, y: usize, z: usize|
        x < BSX && y < BSX && z < BSX ==> is_smoothed(
            halo,
            flags,
            update,
            x as int,
            y as int,
            z as int,
            r[#[trigger] crate::layout::index3(
                x as int,
                y as int,
                z as int,
                BSX as int,
                BSX as int,
            )],
        )
}

/// Updates every fluid voxel of the block from its seven taps in a halo of one voxel. Solid and void
/// voxels keep their value. `flags` are the cell flags of the block.
pub fn kernel_laplacian<
    O: Copy + Default,
    const BSX: usize,
    const HSX: usize,
    F: Fn([O; 7]) -> O,
>(halo: &HaloBlock<O, BSX, HSX>, flags: &Vec<u16>, update: &F) -> (r: Vec<O>)
    requires
        halo.wf(),
        HSX == BSX + 2,
        HSX * HSX * HSX <= usize::MAX,
        flags@.len() == BSX * BSX * BSX,
        forall|a: [O; 7]| #[trigger] call_requires(*update, (a,)),
    ensures
        is_smoothed_block(halo, flags@, update, r@),
{
    let voxel = |x: usize, y: usize, z: usize| -> (r: O)
        requires
            halo.wf(),
            HSX == BSX + 2,
            HSX * HSX * HSX <= usize::MAX,
            BSX * BSX * BSX <= usize::MAX,
            flags@.len() == BSX * BSX * BSX,
            forall|a: [O; 7]| #[trigger] call_requires(*update, (a,)),
            x < BSX,
            y < BSX,
            z < BSX,
        ensures
            is_smoothed(halo, flags@, update, x as int, y as int, z as int, r),
    {
        let c: O = halo.get(x + 1, y + 1, z + 1);
        if cell_is_fluid(flags[crate::blockpool::voxel_index::<BSX>(x, y, z)]) {
            let a: [O; 7] = [
                c,
                halo.get(x, y + 1, z + 1),
                halo.get(x + 2, y + 1, z + 1),
                halo.get(x + 1, y, z + 1),
                halo.get(x + 1, y + 2, z + 1),
                halo.get(x + 1, y + 1, z),
                halo.get(x + 1, y + 1, z + 2),
            ];
            assert(a@ =~= crate::math::stencil::taps(halo, x + 1, y + 1, z + 1, offsets()));
            update(a)
        } else {
            c
        }
    };
    proof {
        crate::math::stencil::lemma_cube_le(BSX as int, HSX as int);
    }
    crate::layout::map_cube(BSX, &voxel)
}

/// A halo that is filled along the faces only has all that the kernel reads.
pub proof fn law_faces_suffice(x: int, y: int, z: int, bsx: int, k: int)
    requires
        0 <= x < bsx,
        0 <= y < bsx,
        0 <= z < bsx,
        0 <= k < offsets().len(),
    ensures
        crate::multires::halo::is_filled(
            x + 1 + offsets()[k].0,
            y + 1 + offsets()[k].1,
            z + 1 + offsets()[k].2,
            1,
            bsx,
            false,
        ),
{
}

/// A fluid voxel is updated from itself and its neighbours before and behind it along x, y and z, in
/// that order; a solid or void one keeps its value. In the cube, the neighbours along x are one
/// element away, those along y a row, those along z a layer.
pub proof fn law_reads_seven<
    O: Copy + Default,
    const BSX: usize,
    const HSX: usize,
    F: Fn([O; 7]) -> O,
>(
    halo: &HaloBlock<O, BSX, HSX>,
    flags: Seq<u16>,
    update: &F,
    x: int,
    y: int,
    z: int,
    r: O,
) -> (a: Option<[O; 7]>)
    requires
        is_smoothed(halo, flags, update, x, y, z, r),
    ensures
        ({
            let (b, h) = (BSX as int, HSX as int);
            let i = (x + 1) + h * (y + 1) + h * h * (z + 1);
            let cell = flags[x + b * y + b * b * z];
            match a {
                Some(t) => {
                    &&& cell & 0x0001 == 0 && cell & 0x1000 == 0
                    &&& t@[0] == halo.data@[i]
                    &&& t@[1] == halo.data@[i - 1] && t@[2] == halo.data@[i + 1]
                    &&& t@[3] == halo.data@[i - h] && t@[4] == halo.data@[i + h]
                    &&& t@[5] == halo.data@[i - h * h] && t@[6] == halo.data@[i + h * h]
                    &&& call_ensures(*update, (t,), r)
                },
                None => (cell & 0x0001 != 0 || cell & 0x1000 != 0) && r == halo.data@[i],
            }
        }),
{
    let (b, h) = (BSX as int, HSX as int);
    crate::math::stencil::lemma_steps(x, y, z, b);
    crate::math::stencil::lemma_steps(x + 1, y + 1, z + 1, h);
    assert(crate::layout::index3(x + 0, y + 0, z + 0, b, b) == x + b * y + b * b * z);
    assert(crate::layout::index3(x + 1 + 0, y + 1 + 0, z + 1 + 0, h, h) == (x + 1) + h * (y + 1) + h
        * h * (z + 1));
    let cell = flags[x + b * y + b * b * z];
    if cell & 0x0001 == 0 && cell & 0x1000 == 0 {
        let t = choose|a: [O; 7]|
            a@ == crate::math::stencil::taps(halo, x + 1, y + 1, z + 1, offsets())
                && #[trigger] call_ensures(*update, (a,), r);
        assert forall|k: int| 0 <= k < 7 implies #[trigger] t@[k] == halo.data@[(x + 1) + h * (y + 1)
            + h * h * (z + 1) + offsets()[k].0 + crate::math::stencil::steps(offsets()[k].1, h)
            + crate::math::stencil::steps(offsets()[k].2, h * h)] by {
            crate::math::stencil::lemma_tap(halo, x + 1, y + 1, z + 1, offsets(), k);
        }
        Some(t)
    } else {
        None
    }
}

/// What the kernel gives for voxel `(x, y, z)` stands at its place in the block, x fastest.
pub proof fn law_block_in_rows<
    O: Copy + Default,
    const BSX: usize,
    const HSX: usize,
    F: Fn([O; 7]) -> O,
>(
    halo: &HaloBlock<O, BSX, HSX>,
    flags: Seq<u16>,
    update: &F,
    r: Seq<O>,
    x: int,
    y: int,
    z: int,
)
    requires
        is_smoothed_block(halo, flags, update, r),
        0 <= x < BSX,
        0 <= y < BSX,
        0 <= z < BSX,
    ensures
        r.len() == BSX * BSX * BSX,
        is_smoothed(halo, flags, update, x, y, z, r[x + BSX * y + BSX * BSX * z]),
{
    let b = BSX as int;
    crate::layout::law_coords_of_cell(x, y, z, b, b, b);
    let (i, j, k) = (x as usize, y as usize, z as usize);
    let at = crate::layout::index3(i as int, j as int, k as int, b, b);
    assert(is_smoothed(halo, flags, update, x, y, z, r[at]));
}

} // verus!
