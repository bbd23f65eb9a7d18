//! What a splat computes where values are merged and combined by one operation that does not care
//! about order, such as the minimum.

use crate::particles::splat::{SplatPlan, VoxelBox, Window};
use crate::sparse_grid::SparseGrid;
use vstd::prelude::*;

verus! {

/// Both closures compute `op`, which can be regrouped and reordered, and to which `full` adds nothing.
pub open spec fn reduces_by<D, M: Fn(D, D) -> D, C: Fn(D, D) -> D>(
    op: spec_fn(D, D) -> D,
    merge: &M,
    combine: &C,
    full: D,
) -> bool {
    &&& forall|a: D, b: D, r: D| #[trigger] call_ensures(*merge, (a, b), r) ==> r == op(a, b)
    &&& forall|a: D, b: D, r: D| #[trigger] call_ensures(*combine, (a, b), r) ==> r == op(a, b)
    &&& forall|a: D, b: D, c: D| #[trigger] op(op(a, b), c) == op(a, op(b, c))
    &&& forall|a: D, b: D| #[trigger] op(a, b) == op(b, a)
    &&& forall|a: D| #[trigger] op(a, full) == a
}

/// The closure computes `val`.
pub open spec fn gives<D, V: Fn(usize, i32, i32, i32) -> D>(
    value: &V,
    val: spec_fn(usize, int, int, int) -> D,
) -> bool {
    forall|i: usize, x: i32, y: i32, z: i32, c: D| #[trigger]
        call_ensures(*value, (i, x, y, z), c) ==> c == val(i, x as int, y as int, z as int)
}

/// The values of particles `lo` to `n` that reach voxel `(x, y, z)`, in order.
pub open spec fn values_at<D>(
    val: spec_fn(usize, int, int, int) -> D,
    boxes: Seq<VoxelBox>,
    lo: int,
    n: int,
    x: int,
    y: int,
    z: int,
) -> Seq<D>
    decreases n - lo,
{
    if n <= lo {
        seq![]
    } else {
        let rest = values_at(val, boxes, lo, n - 1, x, y, z);
        if boxes[n - 1].has(x, y, z) {
            rest.push(val((n - 1) as usize, x, y, z))
        } else {
            rest
        }
    }
}

/// Voxel `v` lies within `margin` of block `k` along an axis.
pub open spec fn near_block(v: int, k: int, bsx: int, margin: int) -> bool {
    bsx * k - margin <= v < bsx * k + bsx + margin
}

/// Voxel `(x, y, z)` lies within the margin of the block with rank `r`.
pub open spec fn in_reach(
    plan: &SplatPlan,
    bsx: int,
    nx: int,
    ny: int,
    r: int,
    x: int,
    y: int,
    z: int,
) -> bool {
    let bid = plan.particle_blocks@[r] as int;
    &&& near_block(x, crate::layout::coord_x(bid, nx), bsx, plan.margin as int)
    &&& near_block(y, crate::layout::coord_y(bid, nx, ny), bsx, plan.margin as int)
    &&& near_block(z, crate::layout::coord_z(bid, nx, ny), bsx, plan.margin as int)
}

/// The values that the blocks of `ranks` contribute to voxel `(x, y, z)`: those of their particles
/// that reach it, where it lies within the margin.
pub open spec fn contributions<D>(
    plan: &SplatPlan,
    val: spec_fn(usize, int, int, int) -> D,
    ranks: Seq<usize>,
    bsx: int,
    nx: int,
    ny: int,
    x: int,
    y: int,
    z: int,
) -> Seq<D>
    decreases ranks.len(),
{
    if ranks.len() == 0 {
        seq![]
    } else {
        let rest = contributions(plan, val, ranks.drop_last(), bsx, nx, ny, x, y, z);
        let r = ranks.last() as int;
        if in_reach(plan, bsx, nx, ny, r, x, y, z) {
            rest + values_at(
                val,
                plan.boxes@,
                plan.starts@[r] as int,
                plan.starts@[r + 1] as int,
                x,
                y,
                z,
            )
        } else {
            rest
        }
    }
}

/// Folding from `a` on is the same as folding from `full` on and then combining with `a`.
proof fn lemma_fold_from<D, M: Fn(D, D) -> D, C: Fn(D, D) -> D>(
    op: spec_fn(D, D) -> D,
    merge: &M,
    combine: &C,
    full: D,
    a: D,
    s: Seq<D>,
)
    requires
        reduces_by(op, merge, combine, full),
    ensures
        op(a, s.fold_left(full, op)) == s.fold_left(a, op),
    decreases s.len(),
{
    if s.len() > 0 {
        let t = s.drop_last();
        lemma_fold_from(op, merge, combine, full, a, t);
        assert(op(op(a, t.fold_left(full, op)), s.last()) == op(
            a,
            op(t.fold_left(full, op), s.last()),
        ));
    }
}

/// What accumulates at a voxel is the fold of the values that reach it.
proof fn lemma_accumulated_fold<
    D,
    V: Fn(usize, i32, i32, i32) -> D,
    M: Fn(D, D) -> D,
    C: Fn(D, D) -> D,
>(
    value: &V,
    merge: &M,
    combine: &C,
    full: D,
    op: spec_fn(D, D) -> D,
    val: spec_fn(usize, int, int, int) -> D,
    boxes: Seq<VoxelBox>,
    lo: int,
    n: int,
    x: int,
    y: int,
    z: int,
    acc: D,
)
    requires
        reduces_by(op, merge, combine, full),
        gives(value, val),
        i32::MIN <= x <= i32::MAX,
        i32::MIN <= y <= i32::MAX,
        i32::MIN <= z <= i32::MAX,
        crate::particles::splat::accumulated(value, merge, full, boxes, lo, n, x, y, z, acc),
    ensures
        acc == values_at(val, boxes, lo, n, x, y, z).fold_left(full, op),
    decreases n - lo,
{
    if n > lo {
        let rest = values_at(val, boxes, lo, n - 1, x, y, z);
        if boxes[n - 1].has(x, y, z) {
            let i = (n - 1) as usize;
            let (prev, c) = choose|prev: D, c: D|
                {
                    &&& crate::particles::splat::accumulated(
                        value,
                        merge,
                        full,
                        boxes,
                        lo,
                        n - 1,
                        x,
                        y,
                        z,
                        prev,
                    )
                    &&& call_ensures(*value, (i, x as i32, y as i32, z as i32), c)
                    &&& #[trigger] call_ensures(*merge, (prev, c), acc)
                };
            lemma_accumulated_fold(
                value,
                merge,
                combine,
                full,
                op,
                val,
                boxes,
                lo,
                n - 1,
                x,
                y,
                z,
                prev,
            );
            let all = rest.push(val(i, x, y, z));
            assert(all.drop_last() =~= rest);
        } else {
            lemma_accumulated_fold(
                value,
                merge,
                combine,
                full,
                op,
                val,
                boxes,
                lo,
                n - 1,
                x,
                y,
                z,
                acc,
            );
        }
    }
}

/// What the particles of one block make of a voxel.
proof fn lemma_block_fold<
    D,
    const BSX: usize,
    const N: usize,
    V: Fn(usize, i32, i32, i32) -> D,
    M: Fn(D, D) -> D,
    C: Fn(D, D) -> D,
>(
    before: SparseGrid<D, BSX, N>,
    after: SparseGrid<D, BSX, N>,
    plan: &SplatPlan,
    r: usize,
    value: &V,
    merge: &M,
    combine: &C,
    full: D,
    op: spec_fn(D, D) -> D,
    val: spec_fn(usize, int, int, int) -> D,
    x: int,
    y: int,
    z: int,
) where D: Copy + Default + Send + Sync
    requires
        before.wf(),
        crate::particles::splat::block_splatted(
            before,
            after,
            plan,
            r,
            value,
            merge,
            combine,
            full,
        ),
        reduces_by(op, merge, combine, full),
        gives(value, val),
        before.has_voxel(x, y, z),
        before.sx <= i32::MAX,
        before.sy <= i32::MAX,
        before.sz <= i32::MAX,
        before.kind(before.bid_of(x, y, z)) is Allocated,
    ensures
        after.voxel(x, y, z) == (if in_reach(
            plan,
            BSX as int,
            before.nx as int,
            before.ny as int,
            r as int,
            x,
            y,
            z,
        ) {
            values_at(
                val,
                plan.boxes@,
                plan.starts@[r as int] as int,
                plan.starts@[r + 1] as int,
                x,
                y,
                z,
            ).fold_left(before.voxel(x, y, z), op)
        } else {
            before.voxel(x, y, z)
        }),
{
    let bsx = BSX as int;
    let nx = before.nx as int;
    let ny = before.ny as int;
    let lo = plan.starts@[r as int] as int;
    let hi = plan.starts@[r + 1] as int;
    let bid = plan.particle_blocks@[r as int] as int;
    let (win, data) = choose|win: Window, data: Seq<D>|
        {
            &&& crate::particles::splat::is_window_of(win, bsx, nx, ny, bid, plan.margin as int)
            &&& crate::particles::splat::is_staged(
                value,
                merge,
                full,
                plan.boxes@,
                lo,
                hi,
                win,
                data,
            )
            &&& #[trigger] crate::particles::splat::committed(before, after, combine, win, data)
        };
    assert(win.has(x, y, z) == in_reach(plan, bsx, nx, ny, r as int, x, y, z));
    let now = before.voxel(x, y, z);
    assert(after.voxel(x, y, z) == after.voxel(x, y, z));
    if win.has(x, y, z) {
        let staged = data[win.index(x, y, z)];
        lemma_accumulated_fold(
            value,
            merge,
            combine,
            full,
            op,
            val,
            plan.boxes@,
            lo,
            hi,
            x,
            y,
            z,
            staged,
        );
        lemma_fold_from(
            op,
            merge,
            combine,
            full,
            now,
            values_at(val, plan.boxes@, lo, hi, x, y, z),
        );
        assert(call_ensures(*combine, (now, staged), after.voxel(x, y, z)));
    }
}

/// A splat changes no block but those that are allocated, and no sizes.
pub proof fn lemma_splat_keeps<
    D,
    const BSX: usize,
    const N: usize,
    V: Fn(usize, i32, i32, i32) -> D,
    M: Fn(D, D) -> D,
    C: Fn(D, D) -> D,
>(
    before: SparseGrid<D, BSX, N>,
    after: SparseGrid<D, BSX, N>,
    plan: &SplatPlan,
    ranks: Seq<usize>,
    value: &V,
    merge: &M,
    combine: &C,
    full: D,
) where D: Copy + Default + Send + Sync
    requires
        before.wf(),
        crate::particles::splat::ranks_splatted(
            before,
            after,
            plan,
            ranks,
            value,
            merge,
            combine,
            full,
        ),
    ensures
        after.wf(),
        after.same_shape(&before),
        forall|b: int| 0 <= b < before.n_blocks ==> #[trigger] after.kind(b) == before.kind(b),
    decreases ranks.len(),
{
    if ranks.len() > 0 {
        let mid = choose|mid: SparseGrid<D, BSX, N>|
            crate::particles::splat::ranks_splatted(
                before,
                mid,
                plan,
                ranks.drop_last(),
                value,
                merge,
                combine,
                full,
            ) && #[trigger] crate::particles::splat::block_splatted(
                mid,
                after,
                plan,
                ranks.last(),
                value,
                merge,
                combine,
                full,
            );
        lemma_splat_keeps(before, mid, plan, ranks.drop_last(), value, merge, combine, full);
        assert forall|b: int| 0 <= b < before.n_blocks implies #[trigger] after.kind(b)
            == before.kind(b) by {
            assert(mid.kind(b) == before.kind(b));
        }
    }
}

/// A splat is the direct scatter: every voxel of an allocated block ends up as what it was, reduced
/// with the value of each particle that reaches it, one by one. That the values go through staging
/// buffers, block by block and color by color, does not show.
pub proof fn law_splat_is_scatter<
    D,
    const BSX: usize,
    const N: usize,
    V: Fn(usize, i32, i32, i32) -> D,
    M: Fn(D, D) -> D,
    C: Fn(D, D) -> D,
>(
    before: SparseGrid<D, BSX, N>,
    after: SparseGrid<D, BSX, N>,
    plan: &SplatPlan,
    ranks: Seq<usize>,
    value: &V,
    merge: &M,
    combine: &C,
    full: D,
    op: spec_fn(D, D) -> D,
    val: spec_fn(usize, int, int, int) -> D,
    x: int,
    y: int,
    z: int,
) where D: Copy + Default + Send + Sync
    requires
        before.wf(),
        before.sx <= i32::MAX,
        before.sy <= i32::MAX,
        before.sz <= i32::MAX,
        crate::particles::splat::ranks_splatted(
            before,
            after,
            plan,
            ranks,
            value,
            merge,
            combine,
            full,
        ),
        reduces_by(op, merge, combine, full),
        gives(value, val),
        before.has_voxel(x, y, z),
        before.kind(before.bid_of(x, y, z)) is Allocated,
    ensures
        after.voxel(x, y, z) == contributions(
            plan,
            val,
            ranks,
            BSX as int,
            before.nx as int,
            before.ny as int,
            x,
            y,
            z,
        ).fold_left(before.voxel(x, y, z), op),
    decreases ranks.len(),
{
    if ranks.len() > 0 {
        let (nx, ny) = (before.nx as int, before.ny as int);
        let r = ranks.last();
        let mid = choose|mid: SparseGrid<D, BSX, N>|
            crate::particles::splat::ranks_splatted(
                before,
                mid,
                plan,
                ranks.drop_last(),
                value,
                merge,
                combine,
                full,
            ) && #[trigger] crate::particles::splat::block_splatted(
                mid,
                after,
                plan,
                r,
                value,
                merge,
                combine,
                full,
            );
        lemma_splat_keeps(before, mid, plan, ranks.drop_last(), value, merge, combine, full);
        before.lemma_ids(x, y, z);
        assert(mid.kind(before.bid_of(x, y, z)) == before.kind(before.bid_of(x, y, z)));
        law_splat_is_scatter(
            before,
            mid,
            plan,
            ranks.drop_last(),
            value,
            merge,
            combine,
            full,
            op,
            val,
            x,
            y,
            z,
        );
        lemma_block_fold(
            mid,
            after,
            plan,
            r,
            value,
            merge,
            combine,
            full,
            op,
            val,
            x,
            y,
            z,
        );
        let rest = contributions(plan, val, ranks.drop_last(), BSX as int, nx, ny, x, y, z);
        let more = values_at(
            val,
            plan.boxes@,
            plan.starts@[r as int] as int,
            plan.starts@[r + 1] as int,
            x,
            y,
            z,
        );
        let all = rest + more;
        all.lemma_fold_left_split(before.voxel(x, y, z), op, rest.len() as int);
        assert(all.subrange(0, rest.len() as int) =~= rest);
        assert(all.subrange(rest.len() as int, all.len() as int) =~= more);
    }
}

/// The order of the particles does not matter to a splat: where the same values reach a voxel, in
/// whatever order and from whatever blocks, it comes out the same.
pub proof fn law_splat_order_free<
    D,
    const BSX: usize,
    const N: usize,
    V: Fn(usize, i32, i32, i32) -> D,
    W: Fn(usize, i32, i32, i32) -> D,
    M: Fn(D, D) -> D,
    C: Fn(D, D) -> D,
>(
    before: SparseGrid<D, BSX, N>,
    a: SparseGrid<D, BSX, N>,
    b: SparseGrid<D, BSX, N>,
    plan_a: &SplatPlan,
    plan_b: &SplatPlan,
    ranks_a: Seq<usize>,
    ranks_b: Seq<usize>,
    value_a: &V,
    value_b: &W,
    merge: &M,
    combine: &C,
    full: D,
    op: spec_fn(D, D) -> D,
    val_a: spec_fn(usize, int, int, int) -> D,
    val_b: spec_fn(usize, int, int, int) -> D,
    x: int,
    y: int,
    z: int,
) where D: Copy + Default + Send + Sync
    requires
        before.wf(),
        before.sx <= i32::MAX,
        before.sy <= i32::MAX,
        before.sz <= i32::MAX,
        crate::particles::splat::ranks_splatted(
            before,
            a,
            plan_a,
            ranks_a,
            value_a,
            merge,
            combine,
            full,
        ),
        crate::particles::splat::ranks_splatted(
            before,
            b,
            plan_b,
            ranks_b,
            value_b,
            merge,
            combine,
            full,
        ),
        reduces_by(op, merge, combine, full),
        gives(value_a, val_a),
        gives(value_b, val_b),
        before.has_voxel(x, y, z),
        before.kind(before.bid_of(x, y, z)) is Allocated,
        contributions(
            plan_a,
            val_a,
            ranks_a,
            BSX as int,
            before.nx as int,
            before.ny as int,
            x,
            y,
            z,
        ).to_multiset() == contributions(
            plan_b,
            val_b,
            ranks_b,
            BSX as int,
            before.nx as int,
            before.ny as int,
            x,
            y,
            z,
        ).to_multiset(),
    ensures
        a.voxel(x, y, z) == b.voxel(x, y, z),
{
    let (nx, ny) = (before.nx as int, before.ny as int);
    law_splat_is_scatter(
        before,
        a,
        plan_a,
        ranks_a,
        value_a,
        merge,
        combine,
        full,
        op,
        val_a,
        x,
        y,
        z,
    );
    law_splat_is_scatter(
        before,
        b,
        plan_b,
        ranks_b,
        value_b,
        merge,
        combine,
        full,
        op,
        val_b,
        x,
        y,
        z,
    );
    assert(vstd::seq_lib::commutative_foldl(op)) by {
        assert forall|p: D, q: D, v: D| #[trigger] op(op(v, p), q) == op(op(v, q), p) by {
            assert(op(op(v, p), q) == op(v, op(p, q)));
            assert(op(op(v, q), p) == op(v, op(q, p)));
            assert(op(p, q) == op(q, p));
        }
    }
    vstd::seq_lib::lemma_fold_left_permutation(
        contributions(plan_a, val_a, ranks_a, BSX as int, nx, ny, x, y, z),
        contributions(plan_b, val_b, ranks_b, BSX as int, nx, ny, x, y, z),
        op,
        before.voxel(x, y, z),
    );
}

/// The contributions of a run of particles to a voxel are those of its first part, then those of the
/// rest.
pub proof fn law_values_split<D>(
    val: spec_fn(usize, int, int, int) -> D,
    boxes: Seq<VoxelBox>,
    lo: int,
    mid: int,
    n: int,
    x: int,
    y: int,
    z: int,
)
    requires
        lo <= mid <= n,
    ensures
        values_at(val, boxes, lo, n, x, y, z) == values_at(val, boxes, lo, mid, x, y, z) + values_at(
            val,
            boxes,
            mid,
            n,
            x,
            y,
            z,
        ),
    decreases n - mid,
{
    if mid == n {
        assert(values_at(val, boxes, n, n, x, y, z) =~= seq![]);
        assert(values_at(val, boxes, lo, n, x, y, z) =~= values_at(val, boxes, lo, n, x, y, z) + seq![]);
    } else {
        law_values_split(val, boxes, lo, mid, n - 1, x, y, z);
        let (a, b) = (
            values_at(val, boxes, lo, mid, x, y, z),
            values_at(val, boxes, mid, n - 1, x, y, z),
        );
        if boxes[n - 1].has(x, y, z) {
            let v = val((n - 1) as usize, x, y, z);
            assert((a + b).push(v) =~= a + b.push(v));
        }
    }
}

/// A particle contributes its value to the voxels of its box, and nothing to others.
pub proof fn law_values_of_one<D>(
    val: spec_fn(usize, int, int, int) -> D,
    boxes: Seq<VoxelBox>,
    i: int,
    x: int,
    y: int,
    z: int,
)
    ensures
        ({
            let b = boxes[i];
            let inside = b.x1 <= x <= b.x2 && b.y1 <= y <= b.y2 && b.z1 <= z <= b.z2;
            values_at(val, boxes, i, i + 1, x, y, z) == if inside {
                seq![val(i as usize, x, y, z)]
            } else {
                seq![]
            }
        }),
{
    assert(values_at(val, boxes, i, i, x, y, z) =~= seq![]);
    assert(Seq::<D>::empty().push(val(i as usize, x, y, z)) =~= seq![val(i as usize, x, y, z)]);
}

/// The contributions of two lists of blocks are those of the first, then those of the second.
pub proof fn law_contributions_split<D>(
    plan: &SplatPlan,
    val: spec_fn(usize, int, int, int) -> D,
    a: Seq<usize>,
    b: Seq<usize>,
    bsx: int,
    nx: int,
    ny: int,
    x: int,
    y: int,
    z: int,
)
    ensures
        contributions(plan, val, a + b, bsx, nx, ny, x, y, z) == contributions(
            plan,
            val,
            a,
            bsx,
            nx,
            ny,
            x,
            y,
            z,
        ) + contributions(plan, val, b, bsx, nx, ny, x, y, z),
    decreases b.len(),
{
    if b.len() == 0 {
        assert(a + b =~= a);
        assert(contributions(plan, val, b, bsx, nx, ny, x, y, z) =~= seq![]);
        assert(contributions(plan, val, a, bsx, nx, ny, x, y, z) =~= contributions(
            plan,
            val,
            a,
            bsx,
            nx,
            ny,
            x,
            y,
            z,
        ) + seq![]);
    } else {
        law_contributions_split(plan, val, a, b.drop_last(), bsx, nx, ny, x, y, z);
        assert((a + b).drop_last() =~= a + b.drop_last());
        assert((a + b).last() == b.last());
        let p = contributions(plan, val, a, bsx, nx, ny, x, y, z);
        let q = contributions(plan, val, b.drop_last(), bsx, nx, ny, x, y, z);
        let r = b.last() as int;
        let v = values_at(
            val,
            plan.boxes@,
            plan.starts@[r] as int,
            plan.starts@[r + 1] as int,
            x,
            y,
            z,
        );
        assert((p + q) + v =~= p + (q + v));
    }
}

/// The particles of the block at `(bx, by, bz)` contribute to the voxels up to the margin around the
/// block, each as its box says, and nothing beyond.
pub proof fn law_contributions_of_block<D>(
    plan: &SplatPlan,
    val: spec_fn(usize, int, int, int) -> D,
    r: usize,
    bsx: int,
    nx: int,
    ny: int,
    nz: int,
    bx: int,
    by: int,
    bz: int,
    x: int,
    y: int,
    z: int,
)
    requires
        0 <= bx < nx,
        0 <= by < ny,
        0 <= bz < nz,
        plan.particle_blocks@[r as int] == bx + nx * by + nx * ny * bz,
    ensures
        ({
            let m = plan.margin as int;
            let near = bsx * bx - m <= x < bsx * bx + bsx + m && bsx * by - m <= y < bsx * by + bsx + m
                && bsx * bz - m <= z < bsx * bz + bsx + m;
            contributions(plan, val, seq![r], bsx, nx, ny, x, y, z) == if near {
                values_at(
                    val,
                    plan.boxes@,
                    plan.starts@[r as int] as int,
                    plan.starts@[r + 1] as int,
                    x,
                    y,
                    z,
                )
            } else {
                seq![]
            }
        }),
{
    crate::layout::law_coords_of_cell(bx, by, bz, nx, ny, nz);
    assert(seq![r].drop_last() =~= seq![]);
    assert(contributions(plan, val, seq![r].drop_last(), bsx, nx, ny, x, y, z) =~= seq![]);
    let v = values_at(
        val,
        plan.boxes@,
        plan.starts@[r as int] as int,
        plan.starts@[r + 1] as int,
        x,
        y,
        z,
    );
    assert(Seq::<D>::empty() + v =~= v);
}

} // verus!
