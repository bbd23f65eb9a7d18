//! Converting the splatted field of the active blocks, voxel by voxel.

use crate::sparse_grid::{BlockKind, SparseGrid};
use vstd::prelude::*;

verus! {

/// `after` is `f` of `before`, voxel by voxel.
pub open spec fn is_image<D, F: Fn(D) -> D>(f: &F, before: Seq<D>, after: Seq<D>) -> bool {
    &&& after.len() == before.len()
    &&& forall|v: int|
        0 <= v < after.len() ==> call_ensures(*f, (before[v],), #[trigger] after[v])
}

/// What converting the blocks of `active` makes of the grid: in each of them that is allocated every
/// voxel is converted, and all else stays as it was.
pub open spec fn finalized<D, const BSX: usize, const N: usize, F: Fn(D) -> D>(
    before: SparseGrid<D, BSX, N>,
    after: SparseGrid<D, BSX, N>,
    active: Seq<usize>,
    f: &F,
) -> bool where D: Copy + Default + Send + Sync {
    &&& after.wf()
    &&& after.same_shape(&before)
    &&& after.spec_free() == before.spec_free()
    &&& forall|b: int| 0 <= b < before.n_blocks ==> #[trigger] after.kind(b) == before.kind(b)
    &&& forall|b: int|
        0 <= b < before.n_blocks && !(active.contains(b as usize) && before.kind(b) is Allocated)
            ==> #[trigger] after.same_block(&before, b)
    &&& forall|b: usize| #[trigger]
        active.contains(b) && before.kind(b as int) is Allocated ==> is_image(
            f,
            before.block_data(b as int),
            after.block_data(b as int),
        )
}

/// The converted data of block `bid`, or nothing where it is not allocated.
fn convert_block<D, const BSX: usize, const N: usize, F: Fn(D) -> D>(
    grid: &SparseGrid<D, BSX, N>,
    bid: usize,
    f: &F,
) -> (r: Option<Vec<D>>) where D: Copy + Default + Send + Sync
    requires
        grid.wf(),
        bid < grid.n_blocks,
        forall|v: D| #[trigger] call_requires(*f, (v,)),
    ensures
        r is Some == grid.kind(bid as int) is Allocated,
        r matches Some(d) ==> d@.len() == N && is_image(
            f,
            grid.block_data(bid as int),
            d@,
        ),
{
    match grid.block_kind(bid) {
        BlockKind::Allocated(_) => {
            let mut d: Vec<D> = Vec::with_capacity(N);
            let mut v: usize = 0;
            while v < N
                invariant
                    v <= N,
                    grid.wf(),
                    bid < grid.n_blocks,
                    forall|v: D| #[trigger] call_requires(*f, (v,)),
                    d@.len() == v,
                    forall|k: int|
                        0 <= k < v ==> call_ensures(
                            *f,
                            (grid.block_value(bid as int, k),),
                            #[trigger] d@[k],
                        ),
                decreases N - v,
            {
                d.push(f(grid.value_at(bid, v)));
                v = v + 1;
            }
            Some(d)
        },
        _ => None,
    }
}

/// Converts every voxel of the active blocks with `f`, the blocks in parallel.
pub fn finalize<D, const BSX: usize, const N: usize, F: Fn(D) -> D + Send + Sync>(
    grid: &mut SparseGrid<D, BSX, N>,
    active: &Vec<usize>,
    f: &F,
) where D: Copy + Default + Send + Sync
    requires
        old(grid).wf(),
        forall|i: int| 0 <= i < active@.len() ==> (#[trigger] active@[i]) < old(grid).n_blocks,
        forall|v: D| #[trigger] call_requires(*f, (v,)),
    ensures
        finalized(*old(grid), *final(grid), active@, f),
{
    let view: &SparseGrid<D, BSX, N> = &*grid;
    let work = |i: usize| -> (r: Option<Vec<D>>)
        requires
            view.wf(),
            i < active@.len(),
            active@[i as int] < view.n_blocks,
            forall|v: D| #[trigger] call_requires(*f, (v,)),
        ensures
            r is Some == view.kind(active@[i as int] as int) is Allocated,
            r matches Some(d) ==> d@.len() == N && is_image(
                f,
                view.block_data(active@[i as int] as int),
                d@,
            ),
    { convert_block(view, active[i], f) };
    let updates: Vec<Option<Vec<D>>> = crate::par::map_index(active.len(), work);
    proof {
        assert forall|i: int| 0 <= i < active@.len() implies {
            &&& (#[trigger] updates@[i]) is Some == old(grid).kind(active@[i] as int) is Allocated
            &&& updates@[i] matches Some(d) ==> d@.len() == N && is_image(
                f,
                old(grid).block_data(active@[i] as int),
                d@,
            )
        } by {
            assert(updates@[(i as usize) as int] == updates@[i]);
        }
    }
    grid.set_blocks(active, &updates);
    proof {
        assert forall|b: int|
            0 <= b < old(grid).n_blocks && !(active@.contains(b as usize) && old(grid).kind(
                b,
            ) is Allocated) implies #[trigger] grid.same_block(old(grid), b) by {
            if SparseGrid::<D, BSX, N>::is_updated(active@, updates@, b) {
                let k = choose|k: int|
                    0 <= k < active@.len() && #[trigger] active@[k] == b && updates@[k] is Some;
                assert(active@.contains(b as usize));
            }
        }
        assert forall|b: usize| #[trigger] active@.contains(b) && old(grid).kind(b as int) is Allocated implies is_image(
            f,
            old(grid).block_data(b as int),
            grid.block_data(b as int),
        ) by {
            let k = choose|k: int| 0 <= k < active@.len() && active@[k] == b;
            assert(updates@[k] is Some);
            assert(active@[k] == b as int);
            assert(SparseGrid::<D, BSX, N>::is_updated(active@, updates@, b as int));
            let data = grid.block_data(b as int);
            let j = choose|j: int|
                0 <= j < active@.len() && #[trigger] active@[j] == b as int && updates@[j] is Some
                    && updates@[j].unwrap()@ == data;
            assert(updates@[j] is Some);
        }
    }
}

/// Voxel by voxel: in the listed blocks that have memory of their own each voxel becomes the image of
/// what it was, and all other voxels are what they were.
pub proof fn law_finalized_voxel<D, const BSX: usize, const N: usize, F: Fn(D) -> D>(
    before: SparseGrid<D, BSX, N>,
    after: SparseGrid<D, BSX, N>,
    active: Seq<usize>,
    f: &F,
    x: int,
    y: int,
    z: int,
) where D: Copy + Default + Send + Sync
    requires
        before.wf(),
        finalized(before, after, active, f),
        0 <= x < before.sx,
        0 <= y < before.sy,
        0 <= z < before.sz,
    ensures
        active.contains(before.bid_of(x, y, z) as usize) && before.kind(
            before.bid_of(x, y, z),
        ) is Allocated ==> call_ensures(*f, (before.voxel(x, y, z),), after.voxel(x, y, z)),
        !(active.contains(before.bid_of(x, y, z) as usize) && before.kind(
            before.bid_of(x, y, z),
        ) is Allocated) ==> after.voxel(x, y, z) == before.voxel(x, y, z),
        after.kind(before.bid_of(x, y, z)) == before.kind(before.bid_of(x, y, z)),
{
    before.lemma_ids(x, y, z);
    let b = before.bid_of(x, y, z);
    let v = SparseGrid::<D, BSX, N>::vid_of(x, y, z);
    assert(after.bid_of(x, y, z) == b);
    assert(after.kind(b) == before.kind(b));
    if active.contains(b as usize) && before.kind(b) is Allocated {
        assert(is_image(f, before.block_data(b), after.block_data(b)));
        assert(after.block_data(b)[v] == after.block_value(b, v));
    } else {
        assert(after.same_block(&before, b));
        assert(after.block_value(b, v) == before.block_value(b, v));
    }
}

} // verus!
