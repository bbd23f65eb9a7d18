//! The blocks that particles touch: the union of their footprints.

use crate::blockmap::BlockSet;
use crate::particles::dims::{clip_range, BlockBox, GridDims};
use vstd::prelude::*;

verus! {

/// How many particles one parallel work item takes.
pub const CHUNK: usize = 4096;

/// One of the footprints `lo` to `hi` covers block `bid`.
pub open spec fn covered(
    boxes: Seq<BlockBox>,
    dims: &GridDims,
    lo: int,
    hi: int,
    bid: int,
) -> bool {
    exists|i: int| lo <= i < hi && #[trigger] dims.in_footprint(boxes[i], bid)
}

/// The blocks that the footprints cover.
pub open spec fn touched(boxes: Seq<BlockBox>, dims: &GridDims) -> Set<usize> {
    Set::new(|k: usize| covered(boxes, dims, 0, boxes.len() as int, k as int))
}

/// A set can hold the blocks that the footprints cover: their ids can be keys, and they are not too
/// many.
pub open spec fn touched_fit(boxes: Seq<BlockBox>, dims: &GridDims) -> bool {
    &&& forall|k: usize| #[trigger] touched(boxes, dims).contains(k) ==> crate::blockmap::valid_key(k)
    &&& crate::blockmap::ids_fit(touched(boxes, dims).len() as int)
}

/// A set can hold all blocks of the grid, or at least those that the footprints cover.
pub open spec fn reach_fits(boxes: Seq<BlockBox>, dims: &GridDims) -> bool {
    crate::blockmap::ids_fit(dims.count()) || touched_fit(boxes, dims)
}

/// A set of blocks that the footprints cover, which has only ever grown.
pub open spec fn is_id_set(set: &BlockSet, boxes: Seq<BlockBox>, dims: &GridDims) -> bool {
    &&& set.wf()
    &&& set.compact()
    &&& forall|k: usize| #[trigger] set@.contains_key(k) ==> touched(boxes, dims).contains(k)
}

proof fn lemma_touched(boxes: Seq<BlockBox>, dims: &GridDims)
    requires
        dims.wf(),
    ensures
        touched(boxes, dims).finite(),
        touched(boxes, dims).len() <= dims.count(),
        forall|k: usize| #[trigger] touched(boxes, dims).contains(k) ==> k < dims.count(),
{
    let n = dims.count();
    crate::layout::lemma_coords3_count(dims.nx as int, dims.ny as int, dims.nz as int);
    crate::blockmap::lemma_ids_below(n);
    assert(touched(boxes, dims).subset_of(crate::blockmap::ids_below(n)));
    vstd::set_lib::lemma_len_subset(touched(boxes, dims), crate::blockmap::ids_below(n));
}

/// If all blocks of the grid fit, so do those that footprints cover.
proof fn lemma_reach_fits(boxes: Seq<BlockBox>, dims: &GridDims)
    requires
        dims.wf(),
        reach_fits(boxes, dims),
    ensures
        touched_fit(boxes, dims),
{
    lemma_touched(boxes, dims);
}

/// There is room for one more of the blocks that the footprints cover.
proof fn lemma_room(set: &BlockSet, boxes: Seq<BlockBox>, dims: &GridDims)
    requires
        dims.wf(),
        touched_fit(boxes, dims),
        is_id_set(set, boxes, dims),
    ensures
        set.has_room(),
{
    set.lemma_wf();
    lemma_touched(boxes, dims);
    assert(set@.dom().subset_of(touched(boxes, dims)));
    vstd::set_lib::lemma_len_subset(set@.dom(), touched(boxes, dims));
}

/// The set holds exactly the blocks that footprints `lo` to `hi` cover.
pub open spec fn is_union(
    set: &BlockSet,
    boxes: Seq<BlockBox>,
    dims: &GridDims,
    lo: int,
    hi: int,
) -> bool {
    forall|k: usize| #[trigger] set@.contains_key(k) <==> covered(boxes, dims, lo, hi, k as int)
}

/// Adds the blocks of footprint `at` to the set.
fn insert_footprint(set: &mut BlockSet, boxes: &Vec<BlockBox>, at: usize, dims: &GridDims)
    requires
        is_id_set(old(set), boxes@, dims),
        dims.wf(),
        touched_fit(boxes@, dims),
        at < boxes@.len(),
    ensures
        is_id_set(final(set), boxes@, dims),
        forall|k: usize| #[trigger]
            final(set)@.contains_key(k) <==> old(set)@.contains_key(k) || dims.in_footprint(
                boxes@[at as int],
                k as int,
            ),
{
    let b: BlockBox = boxes[at];
    let (x0, wx) = clip_range(b.x1, b.x2, dims.nx);
    let (y0, wy) = clip_range(b.y1, b.y2, dims.ny);
    let (z0, wz) = clip_range(b.z1, b.z2, dims.nz);
    let ghost (nx, ny, nz) = (dims.nx as int, dims.ny as int, dims.nz as int);
    proof {
        assert forall|k: usize| #[trigger] dims.in_footprint(b, k as int) implies local_index(
            dims,
            k as int,
            x0 as int,
            y0 as int,
            z0 as int,
            wx as int,
            wy as int,
        ) >= 0 by {
            crate::layout::lemma_coords3(k as int, nx, ny, nz);
            assert(crate::particles::dims::in_range(dims.x_of(k as int), x0 as int, wx as int));
            assert(crate::particles::dims::in_range(dims.y_of(k as int), y0 as int, wy as int));
            assert(crate::particles::dims::in_range(dims.z_of(k as int), z0 as int, wz as int));
            crate::layout::lemma_index3(
                dims.x_of(k as int) - x0,
                dims.y_of(k as int) - y0,
                dims.z_of(k as int) - z0,
                wx as int,
                wy as int,
                wz as int,
            );
        }
        assert(wx * wy <= nx * ny) by (nonlinear_arith)
            requires
                0 <= wx <= nx,
                0 <= wy <= ny,
        ;
        assert(0 <= wx * wy) by (nonlinear_arith)
            requires
                0 <= wx,
                0 <= wy,
        ;
        assert(wx * wy * wz <= nx * ny * nz) by (nonlinear_arith)
            requires
                0 <= wx * wy <= nx * ny,
                0 <= wz <= nz,
        ;
    }
    let total: usize = wx * wy * wz;
    let mut t: usize = 0;
    while t < total
        invariant
            is_id_set(set, boxes@, dims),
            dims.wf(),
            touched_fit(boxes@, dims),
            at < boxes@.len(),
            b == boxes@[at as int],
            nx == dims.nx,
            ny == dims.ny,
            nz == dims.nz,
            x0 + wx <= nx,
            y0 + wy <= ny,
            z0 + wz <= nz,
            total == wx * wy * wz,
            t <= total,
            forall|v: int|
                #![trigger crate::particles::dims::in_range(v, x0 as int, wx as int)]
                crate::particles::dims::in_range(v, x0 as int, wx as int) <==> b.x1 <= v <= b.x2
                    && 0 <= v < nx,
            forall|v: int|
                #![trigger crate::particles::dims::in_range(v, y0 as int, wy as int)]
                crate::particles::dims::in_range(v, y0 as int, wy as int) <==> b.y1 <= v <= b.y2
                    && 0 <= v < ny,
            forall|v: int|
                #![trigger crate::particles::dims::in_range(v, z0 as int, wz as int)]
                crate::particles::dims::in_range(v, z0 as int, wz as int) <==> b.z1 <= v <= b.z2
                    && 0 <= v < nz,
            forall|k: usize| #[trigger]
                set@.contains_key(k) <==> old(set)@.contains_key(k) || (dims.in_footprint(
                    b,
                    k as int,
                ) && local_index(dims, k as int, x0 as int, y0 as int, z0 as int, wx as int, wy as int)
                    < t),
        decreases total - t,
    {
        proof {
            crate::layout::lemma_coords3(t as int, wx as int, wy as int, wz as int);
        }
        let i: usize = t % wx;
        let j: usize = (t / wx) % wy;
        let k: usize = (t / wx) / wy;
        proof {
            crate::layout::lemma_index3(x0 + i, y0 + j, z0 + k, nx, ny, nz);
            assert(crate::particles::dims::in_range(x0 + i, x0 as int, wx as int));
            assert(crate::particles::dims::in_range(y0 + j, y0 as int, wy as int));
            assert(crate::particles::dims::in_range(z0 + k, z0 as int, wz as int));
        }
        let bid: usize = (x0 + i) + (y0 + j) * dims.nx + (z0 + k) * dims.nxy;
        proof {
            lemma_room(set, boxes@, dims);
            assert(dims.in_footprint(boxes@[at as int], bid as int));
            assert(touched(boxes@, dims).contains(bid));
            assert(local_index(dims, bid as int, x0 as int, y0 as int, z0 as int, wx as int, wy as int)
                == t);
        }
        let ghost before = *set;
        set.insert(bid, ());
        proof {
            assert forall|q: usize| #[trigger] set@.contains_key(q) <==> old(set)@.contains_key(q) || (
            dims.in_footprint(b, q as int) && local_index(
                dims,
                q as int,
                x0 as int,
                y0 as int,
                z0 as int,
                wx as int,
                wy as int,
            ) < t + 1) by {
                assert(set@.contains_key(q) <==> before@.contains_key(q) || q == bid);
                if dims.in_footprint(b, q as int) && local_index(
                    dims,
                    q as int,
                    x0 as int,
                    y0 as int,
                    z0 as int,
                    wx as int,
                    wy as int,
                ) == t {
                    crate::layout::lemma_coords3(q as int, nx, ny, nz);
                    assert(crate::particles::dims::in_range(dims.x_of(q as int), x0 as int, wx as int));
                    assert(crate::particles::dims::in_range(dims.y_of(q as int), y0 as int, wy as int));
                    assert(crate::particles::dims::in_range(dims.z_of(q as int), z0 as int, wz as int));
                    crate::layout::lemma_index3(
                        dims.x_of(q as int) - x0,
                        dims.y_of(q as int) - y0,
                        dims.z_of(q as int) - z0,
                        wx as int,
                        wy as int,
                        wz as int,
                    );
                    assert(q == bid);
                }
            }
        }
        t = t + 1;
    }
    proof {
        assert forall|q: usize| #[trigger] set@.contains_key(q) <==> old(set)@.contains_key(q)
            || dims.in_footprint(b, q as int) by {
            if dims.in_footprint(b, q as int) {
                crate::layout::lemma_coords3(q as int, nx, ny, nz);
                assert(crate::particles::dims::in_range(dims.x_of(q as int), x0 as int, wx as int));
                assert(crate::particles::dims::in_range(dims.y_of(q as int), y0 as int, wy as int));
                assert(crate::particles::dims::in_range(dims.z_of(q as int), z0 as int, wz as int));
                crate::layout::lemma_index3(
                    dims.x_of(q as int) - x0,
                    dims.y_of(q as int) - y0,
                    dims.z_of(q as int) - z0,
                    wx as int,
                    wy as int,
                    wz as int,
                );
            }
        }
    }
}

spec fn local_index(dims: &GridDims, bid: int, x0: int, y0: int, z0: int, wx: int, wy: int) -> int {
    crate::layout::index3(dims.x_of(bid) - x0, dims.y_of(bid) - y0, dims.z_of(bid) - z0, wx, wy)
}

/// The union of footprints `lo` to `hi`.
fn chunk_union(boxes: &Vec<BlockBox>, dims: &GridDims, lo: usize, hi: usize) -> (r: BlockSet)
    requires
        lo <= hi <= boxes@.len(),
        dims.wf(),
        touched_fit(boxes@, dims),
    ensures
        is_id_set(&r, boxes@, dims),
        is_union(&r, boxes@, dims, lo as int, hi as int),
{
    let mut set: BlockSet = BlockSet::new();
    let mut i: usize = lo;
    while i < hi
        invariant
            lo <= i <= hi <= boxes@.len(),
            dims.wf(),
            touched_fit(boxes@, dims),
            is_id_set(&set, boxes@, dims),
            is_union(&set, boxes@, dims, lo as int, i as int),
        decreases hi - i,
    {
        let ghost before = set;
        insert_footprint(&mut set, boxes, i, dims);
        proof {
            assert forall|k: usize| #[trigger] set@.contains_key(k) <==> covered(
                boxes@,
                dims,
                lo as int,
                i + 1,
                k as int,
            ) by {
                assert(before@.contains_key(k) <==> covered(boxes@, dims, lo as int, i as int, k as int));
                if covered(boxes@, dims, lo as int, i as int, k as int) {
                    let j = choose|j: int| lo <= j < i && #[trigger] dims.in_footprint(boxes@[j], k as int);
                    assert(dims.in_footprint(boxes@[j], k as int));
                }
            }
        }
        i = i + 1;
    }
    set
}

/// Adds the keys of `other` to `set`.
fn merge_set(set: &mut BlockSet, other: &BlockSet, boxes: &Vec<BlockBox>, dims: &GridDims)
    requires
        is_id_set(old(set), boxes@, dims),
        is_id_set(other, boxes@, dims),
        dims.wf(),
        touched_fit(boxes@, dims),
    ensures
        is_id_set(final(set), boxes@, dims),
        forall|k: usize| #[trigger]
            final(set)@.contains_key(k) <==> old(set)@.contains_key(k) || other@.contains_key(k),
{
    let pairs: Vec<(usize, ())> = other.iter();
    let mut i: usize = 0;
    while i < pairs.len()
        invariant
            i <= pairs@.len(),
            is_id_set(set, boxes@, dims),
            dims.wf(),
            touched_fit(boxes@, dims),
            crate::blockmap::lists_entries(pairs@, other@),
            is_id_set(other, boxes@, dims),
            forall|k: usize| #[trigger]
                set@.contains_key(k) <==> old(set)@.contains_key(k) || exists|j: int|
                    0 <= j < i && (#[trigger] pairs@[j]).0 == k,
        decreases pairs@.len() - i,
    {
        proof {
            lemma_room(set, boxes@, dims);
            assert(other@.contains_key(pairs@[i as int].0));
            set.lemma_wf();
            other.lemma_wf();
        }
        let ghost before = set@;
        set.insert(pairs[i].0, ());
        proof {
            assert forall|k: usize| #[trigger] set@.contains_key(k) <==> old(set)@.contains_key(k)
                || exists|j: int| 0 <= j < i + 1 && (#[trigger] pairs@[j]).0 == k by {
                assert(set@.contains_key(k) <==> before.contains_key(k) || k == pairs@[i as int].0);
                if before.contains_key(k) && !old(set)@.contains_key(k) {
                    let j = choose|j: int| 0 <= j < i && (#[trigger] pairs@[j]).0 == k;
                    assert(pairs@[j].0 == k);
                }
            }
        }
        i = i + 1;
    }
    proof {
        assert forall|k: usize| #[trigger] set@.contains_key(k) <==> old(set)@.contains_key(k)
            || other@.contains_key(k) by {
            if other@.contains_key(k) {
                let j = choose|j: int| 0 <= j < pairs@.len() && (#[trigger] pairs@[j]).0 == k;
                assert(pairs@[j].0 == k);
            }
            if exists|j: int| 0 <= j < pairs@.len() && (#[trigger] pairs@[j]).0 == k {
                let j = choose|j: int| 0 <= j < pairs@.len() && (#[trigger] pairs@[j]).0 == k;
                assert(other@.contains_key(pairs@[j].0));
            }
        }
    }
}

/// `ids` are the blocks that `boxes` cover, each once, in increasing order.
pub open spec fn are_active_blocks(ids: Seq<usize>, boxes: Seq<BlockBox>, dims: &GridDims) -> bool {
    &&& forall|i: int, j: int| 0 <= i < j < ids.len() ==> #[trigger] ids[i] < #[trigger] ids[j]
    &&& forall|i: int|
        0 <= i < ids.len() ==> covered(boxes, dims, 0, boxes.len() as int, #[trigger] ids[i] as int)
    &&& forall|b: int| #[trigger]
        covered(boxes, dims, 0, boxes.len() as int, b) ==> ids.contains(b as usize)
}

/// The union of all footprints, sorted and without duplicates.
pub fn active_blocks(boxes: &Vec<BlockBox>, dims: &GridDims) -> (r: Vec<usize>)
    requires
        dims.wf(),
        reach_fits(boxes@, dims),
    ensures
        are_active_blocks(r@, boxes@, dims),
{
    let n: usize = boxes.len();
    let n_chunks: usize = n / CHUNK + if n % CHUNK == 0 { 0 } else { 1 };
    proof {
        crate::layout::lemma_ceil_div_bounds(n as int, CHUNK as int);
        lemma_reach_fits(boxes@, dims);
    }
    let work = |c: usize| -> (r: BlockSet)
        requires
            dims.wf(),
            touched_fit(boxes@, dims),
            n == boxes@.len(),
            CHUNK * c <= n,
        ensures
            is_id_set(&r, boxes@, dims),
            is_union(
                &r,
                boxes@,
                dims,
                CHUNK * c,
                crate::arith::min(CHUNK * c + CHUNK, n as int),
            ),
    {
        let lo: usize = CHUNK * c;
        let hi: usize = if CHUNK < n - lo { lo + CHUNK } else { n };
        chunk_union(boxes, dims, lo, hi)
    };
    let sets: Vec<BlockSet> = crate::par::map_index(n_chunks, work);
    proof {
        assert forall|c: int| 0 <= c < n_chunks implies is_id_set(#[trigger] &sets@[c], boxes@, dims)
            && is_union(
            &sets@[c],
            boxes@,
            dims,
            CHUNK * c,
            crate::arith::min(CHUNK * c + CHUNK, n as int),
        ) by {
            assert(sets@[(c as usize) as int] == sets@[c]);
        }
        crate::layout::lemma_coords3_count(
            dims.nx as int,
            dims.ny as int,
            dims.nz as int,
        );
    }
    let mut set: BlockSet = BlockSet::new();
    let mut c: usize = 0;
    while c < n_chunks
        invariant
            c <= n_chunks,
            n == boxes@.len(),
            n_chunks == crate::layout::ceil_div(n as int, CHUNK as int),
            sets@.len() == n_chunks,
            dims.wf(),
            touched_fit(boxes@, dims),
            forall|k: int|
                0 <= k < n_chunks ==> is_id_set(#[trigger] &sets@[k], boxes@, dims) && is_union(
                    &sets@[k],
                    boxes@,
                    dims,
                    CHUNK * k,
                    crate::arith::min(CHUNK * k + CHUNK, n as int),
                ),
            is_id_set(&set, boxes@, dims),
            is_union(&set, boxes@, dims, 0, crate::arith::min(CHUNK * c, n as int)),
        decreases n_chunks - c,
    {
        let ghost before = set;
        let ghost lo = crate::arith::min(CHUNK * c, n as int);
        let ghost hi = crate::arith::min(CHUNK * c + CHUNK, n as int);
        assert(is_id_set(&sets@[c as int], boxes@, dims));
        merge_set(&mut set, &sets[c], boxes, dims);
        proof {
            crate::layout::lemma_ceil_div_bounds(n as int, CHUNK as int);
            assert(lo == CHUNK * c);
            assert forall|k: usize| #[trigger] set@.contains_key(k) <==> covered(boxes@, dims, 0, hi, k as int) by {
                assert(before@.contains_key(k) <==> covered(boxes@, dims, 0, lo, k as int));
                assert(sets@[c as int]@.contains_key(k) <==> covered(boxes@, dims, lo, hi, k as int));
                if covered(boxes@, dims, 0, lo, k as int) {
                    let j = choose|j: int| 0 <= j < lo && #[trigger] dims.in_footprint(boxes@[j], k as int);
                    assert(dims.in_footprint(boxes@[j], k as int));
                }
                if covered(boxes@, dims, lo, hi, k as int) {
                    let j = choose|j: int| lo <= j < hi && #[trigger] dims.in_footprint(boxes@[j], k as int);
                    assert(dims.in_footprint(boxes@[j], k as int));
                }
                if covered(boxes@, dims, 0, hi, k as int) {
                    let j = choose|j: int| 0 <= j < hi && #[trigger] dims.in_footprint(boxes@[j], k as int);
                    assert(dims.in_footprint(boxes@[j], k as int));
                }
            }
        }
        c = c + 1;
    }
    proof {
        crate::layout::lemma_ceil_div_bounds(n as int, CHUNK as int);
    }
    sorted_keys(&set, boxes, dims)
}

/// The keys of the set, in increasing order.
fn sorted_keys(set: &BlockSet, boxes: &Vec<BlockBox>, dims: &GridDims) -> (r: Vec<usize>)
    requires
        set.wf(),
        is_union(set, boxes@, dims, 0, boxes@.len() as int),
        dims.count() <= usize::MAX,
    ensures
        are_active_blocks(r@, boxes@, dims),
{
    let pairs: Vec<(usize, ())> = set.sorted_pairs();
    let mut r: Vec<usize> = Vec::with_capacity(pairs.len());
    let mut i: usize = 0;
    while i < pairs.len()
        invariant
            i <= pairs@.len(),
            r@ == Seq::new(i as nat, |k: int| pairs@[k].0),
        decreases pairs@.len() - i,
    {
        r.push(pairs[i].0);
        i = i + 1;
    }
    proof {
        assert forall|i: int| 0 <= i < r@.len() implies covered(
            boxes@,
            dims,
            0,
            boxes@.len() as int,
            #[trigger] r@[i] as int,
        ) by {
            assert(set@.contains_key(pairs@[i].0));
        }
        assert forall|b: int| #[trigger] covered(boxes@, dims, 0, boxes@.len() as int, b) implies r@.contains(
            b as usize,
        ) by {
            let j = choose|j: int| 0 <= j < boxes@.len() && #[trigger] dims.in_footprint(boxes@[j], b);
            assert(0 <= b < dims.count());
            assert(set@.contains_key(b as usize));
            let k = choose|k: int| 0 <= k < pairs@.len() && (#[trigger] pairs@[k]).0 == b as usize;
            assert(r@[k] == b as usize);
        }
    }
    r
}

/// As far as `k`, two increasing sequences of the same ids agree.
proof fn lemma_same_prefix(a: Seq<usize>, b: Seq<usize>, k: int)
    requires
        0 <= k <= a.len(),
        forall|i: int, j: int| 0 <= i < j < a.len() ==> #[trigger] a[i] < #[trigger] a[j],
        forall|i: int, j: int| 0 <= i < j < b.len() ==> #[trigger] b[i] < #[trigger] b[j],
        forall|v: usize| #[trigger] a.contains(v) <==> b.contains(v),
    ensures
        k <= b.len(),
        forall|i: int| 0 <= i < k ==> #[trigger] a[i] == b[i],
    decreases k,
{
    if k > 0 {
        lemma_same_prefix(a, b, k - 1);
        assert(a.contains(a[k - 1]));
        let j = choose|j: int| 0 <= j < b.len() && b[j] == a[k - 1];
        if j < k - 1 {
            assert(a[j] == b[j]);
            assert(a[j] < a[k - 1]);
        }
        assert(b.contains(b[k - 1]));
        assert(a.contains(b[k - 1]));
        let m = choose|m: int| 0 <= m < a.len() && a[m] == b[k - 1];
        if m < k - 1 {
            assert(a[m] == b[m]);
            assert(b[m] < b[k - 1]);
        }
        if m > k - 1 {
            assert(a[k - 1] < a[m]);
            if k - 1 < j {
                assert(b[k - 1] < b[j]);
            }
        }
    }
}

/// The active blocks follow from the footprints alone: how the work was split does not show.
pub proof fn law_active_blocks_unique(
    a: Seq<usize>,
    b: Seq<usize>,
    boxes: Seq<BlockBox>,
    dims: &GridDims,
)
    requires
        are_active_blocks(a, boxes, dims),
        are_active_blocks(b, boxes, dims),
    ensures
        a == b,
{
    assert forall|v: usize| #[trigger] a.contains(v) <==> b.contains(v) by {
        let n = boxes.len() as int;
        if a.contains(v) {
            let k = choose|k: int| 0 <= k < a.len() && a[k] == v;
            assert(covered(boxes, dims, 0, n, a[k] as int));
            assert(b.contains((v as int) as usize));
        }
        if b.contains(v) {
            let k = choose|k: int| 0 <= k < b.len() && b[k] == v;
            assert(covered(boxes, dims, 0, n, b[k] as int));
            assert(a.contains((v as int) as usize));
        }
    }
    lemma_same_prefix(a, b, a.len() as int);
    lemma_same_prefix(b, a, b.len() as int);
    assert(a =~= b);
}

/// The active blocks are those in the footprint of a particle: the block at `(x, y, z)` is listed
/// exactly if the ranges of some particle hold its coordinates along all axes. They are listed in
/// increasing order.
pub proof fn law_active_by_coordinates(
    ids: Seq<usize>,
    boxes: Seq<BlockBox>,
    dims: &GridDims,
    x: int,
    y: int,
    z: int,
)
    requires
        dims.wf(),
        are_active_blocks(ids, boxes, dims),
        0 <= x < dims.nx,
        0 <= y < dims.ny,
        0 <= z < dims.nz,
    ensures
        ids.contains((x + dims.nx * y + dims.nx * dims.ny * z) as usize) <==> exists|i: int|
            0 <= i < boxes.len() && (#[trigger] boxes[i]).x1 <= x <= boxes[i].x2 && boxes[i].y1 <= y
                <= boxes[i].y2 && boxes[i].z1 <= z <= boxes[i].z2,
        forall|i: int, j: int| 0 <= i < j < ids.len() ==> #[trigger] ids[i] < #[trigger] ids[j],
        forall|i: int| 0 <= i < ids.len() ==> (#[trigger] ids[i]) < dims.nx * dims.ny * dims.nz,
{
    let bid = x + dims.nx * y + dims.nx * dims.ny * z;
    crate::layout::law_coords_of_cell(x, y, z, dims.nx as int, dims.ny as int, dims.nz as int);
    assert(dims.nxy * dims.nz == dims.nx * dims.ny * dims.nz);
    let n = boxes.len() as int;
    if ids.contains(bid as usize) {
        let k = choose|k: int| 0 <= k < ids.len() && ids[k] == bid as usize;
        assert(covered(boxes, dims, 0, n, ids[k] as int));
        let i = choose|i: int| 0 <= i < n && #[trigger] dims.in_footprint(boxes[i], bid);
        crate::particles::dims::law_footprint_by_coordinates(dims, boxes[i], x, y, z);
    }
    if exists|i: int|
        0 <= i < boxes.len() && (#[trigger] boxes[i]).x1 <= x <= boxes[i].x2 && boxes[i].y1 <= y
            <= boxes[i].y2 && boxes[i].z1 <= z <= boxes[i].z2 {
        let i = choose|i: int|
            0 <= i < boxes.len() && (#[trigger] boxes[i]).x1 <= x <= boxes[i].x2 && boxes[i].y1 <= y
                <= boxes[i].y2 && boxes[i].z1 <= z <= boxes[i].z2;
        crate::particles::dims::law_footprint_by_coordinates(dims, boxes[i], x, y, z);
        assert(dims.in_footprint(boxes[i], bid));
        assert(covered(boxes, dims, 0, n, bid));
    }
    assert forall|i: int| 0 <= i < ids.len() implies (#[trigger] ids[i]) < dims.nx * dims.ny
        * dims.nz by {
        assert(covered(boxes, dims, 0, n, ids[i] as int));
    }
}

} // verus!
