//! Placing particles in blocks, and bucketing them: a counting sort into block-major order.
//!
//! The histogram is keyed by block id in a sparse map, so its cost follows the occupied blocks. The
//! particles of a block stand together, and a list of start offsets says where.

use crate::blockmap::BlockMap;
use crate::particles::active::active_blocks;
use crate::particles::dims::{BlockBox, GridDims};
use vstd::prelude::*;

verus! {

/// How often `b` occurs in `s`.
pub open spec fn occurrences(s: Seq<usize>, b: usize) -> nat
    decreases s.len(),
{
    if s.len() == 0 {
        0
    } else {
        occurrences(s.drop_last(), b) + if s.last() == b { 1nat } else { 0nat }
    }
}

/// A bucketing: which particle goes where, which blocks have particles, and where those of each start.
pub struct BucketPlan {
    /// The particle at each place of the block-major order.
    pub perm: Vec<usize>,
    /// Blocks with at least one particle, by increasing id.
    pub particle_blocks: Vec<usize>,
    /// Start offsets of the blocks in `particle_blocks`, and the number of particles at the end.
    pub starts: Vec<usize>,
}

/// The blocks are those of `bids`, each once and in increasing order, and the offsets are the sums of
/// their occurrences.
pub open spec fn is_csr(bids: Seq<usize>, blocks: Seq<usize>, starts: Seq<usize>) -> bool {
    &&& forall|i: int, j: int| 0 <= i < j < blocks.len() ==> #[trigger] blocks[i] < #[trigger] blocks[j]
    &&& forall|i: int| 0 <= i < blocks.len() ==> bids.contains(#[trigger] blocks[i])
    &&& forall|b: usize| #[trigger] bids.contains(b) ==> blocks.contains(b)
    &&& starts.len() == blocks.len() + 1
    &&& starts[0] == 0
    &&& forall|r: int|
        0 <= r < blocks.len() ==> #[trigger] starts[r + 1] == starts[r] + occurrences(bids, blocks[r])
    &&& starts[blocks.len() as int] == bids.len()
}

/// Place `i` of block `r` holds a particle of that block, and the particles of a block keep their
/// order.
pub open spec fn is_block_major(
    bids: Seq<usize>,
    blocks: Seq<usize>,
    starts: Seq<usize>,
    perm: Seq<usize>,
) -> bool {
    &&& perm.len() == bids.len()
    &&& forall|i: int| 0 <= i < perm.len() ==> #[trigger] perm[i] < bids.len()
    &&& forall|i: int, j: int|
        0 <= i < perm.len() && 0 <= j < perm.len() && #[trigger] perm[i] == #[trigger] perm[j] ==> i
            == j
    &&& forall|r: int, i: int|
        0 <= r < blocks.len() && starts[r] <= i < starts[r + 1] ==> bids[#[trigger] perm[i] as int]
            == #[trigger] blocks[r]
    &&& forall|r: int, i: int, j: int|
        #![trigger blocks[r], perm[i], perm[j]]
        0 <= r < blocks.len() && starts[r] <= i < j < starts[r + 1] ==> perm[i] < perm[j]
}

/// The plan is the stable counting sort of `bids`.
pub open spec fn is_bucketing(bids: Seq<usize>, plan: BucketPlan) -> bool {
    &&& is_csr(bids, plan.particle_blocks@, plan.starts@)
    &&& is_block_major(bids, plan.particle_blocks@, plan.starts@, plan.perm@)
}

/// Every id can be a key, and a map can hold them all: there are at most `m` ids, or all are below `m`.
pub open spec fn ids_ok(bids: Seq<usize>) -> bool {
    &&& forall|i: int| 0 <= i < bids.len() ==> crate::blockmap::valid_key(#[trigger] bids[i])
    &&& exists|m: int| #[trigger] crate::blockmap::ids_fit(m) && at_most(bids, m)
}

/// A map can hold all blocks of the grid, or at least those of `bids`.
pub open spec fn blocks_fit(bids: Seq<usize>, dims: &GridDims) -> bool {
    crate::blockmap::ids_fit(dims.count()) || ids_ok(bids)
}

/// If all blocks of the grid fit, so do some of them.
pub(crate) proof fn lemma_blocks_fit(bids: Seq<usize>, dims: &GridDims)
    requires
        dims.wf(),
        blocks_fit(bids, dims),
        forall|i: int| 0 <= i < bids.len() ==> #[trigger] bids[i] < dims.count(),
    ensures
        ids_ok(bids),
{
    if crate::blockmap::ids_fit(dims.count()) {
        assert(at_most(bids, dims.count()));
    }
}

/// There are at most `m` different ids.
pub open spec fn at_most(bids: Seq<usize>, m: int) -> bool {
    bids.len() <= m || forall|i: int| 0 <= i < bids.len() ==> #[trigger] bids[i] < m
}

proof fn lemma_occurrences(s: Seq<usize>, b: usize)
    ensures
        occurrences(s, b) <= s.len(),
        occurrences(s, b) > 0 <==> s.contains(b),
    decreases s.len(),
{
    if s.len() > 0 {
        let t = s.drop_last();
        lemma_occurrences(t, b);
        assert(s[s.len() - 1] == s.last());
        if t.contains(b) {
            let i = choose|i: int| 0 <= i < t.len() && t[i] == b;
            assert(s[i] == b);
        }
        if s.contains(b) && s.last() != b {
            let i = choose|i: int| 0 <= i < s.len() && s[i] == b;
            assert(t[i] == b);
        }
    }
}

proof fn lemma_occurrences_take(s: Seq<usize>, n: int, b: usize)
    requires
        0 <= n < s.len(),
    ensures
        occurrences(s.take(n + 1), b) == occurrences(s.take(n), b) + if s[n] == b { 1nat } else { 0nat },
{
    assert(s.take(n + 1).drop_last() =~= s.take(n));
}

proof fn lemma_occurrences_monotone(s: Seq<usize>, m: int, n: int, b: usize)
    requires
        0 <= m <= n <= s.len(),
    ensures
        occurrences(s.take(m), b) <= occurrences(s.take(n), b),
        m < n && s[m] == b ==> occurrences(s.take(m), b) < occurrences(s.take(n), b),
    decreases n - m,
{
    if m < n {
        lemma_occurrences_take(s, n - 1, b);
        lemma_occurrences_monotone(s, m, n - 1, b);
        if m == n - 1 {
            lemma_occurrences_take(s, m, b);
        }
    }
}

/// The occurrence of `b` that `k` others come before.
proof fn lemma_kth(s: Seq<usize>, b: usize, k: nat) -> (j: int)
    requires
        k < occurrences(s, b),
    ensures
        0 <= j < s.len(),
        s[j] == b,
        occurrences(s.take(j), b) == k,
    decreases s.len(),
{
    let t = s.drop_last();
    if s.last() == b && k == occurrences(t, b) {
        assert(s.take(s.len() - 1) =~= t);
        s.len() - 1
    } else {
        let j = lemma_kth(t, b, k);
        assert(t.take(j) =~= s.take(j));
        j
    }
}

/// The histogram of the first `n` ids.
spec fn is_histogram(m: Map<usize, usize>, s: Seq<usize>) -> bool {
    &&& forall|b: usize| #[trigger] m.contains_key(b) <==> s.contains(b)
    &&& forall|b: usize| #[trigger] m.contains_key(b) ==> m[b] == occurrences(s, b)
}

/// The keys of a histogram are no more than the ids it counts.
proof fn lemma_histogram_len(m: Map<usize, usize>, s: Seq<usize>)
    requires
        is_histogram(m, s),
        m.dom().finite(),
    ensures
        m.len() <= s.len(),
{
    assert(m.dom() =~= s.to_set());
    s.lemma_cardinality_of_set();
}

/// A compact map whose keys are among the ids has room for one more.
proof fn lemma_room(m: &BlockMap<usize>, bids: Seq<usize>)
    requires
        m.wf(),
        m.compact(),
        m@.len() <= bids.len(),
        forall|b: usize| #[trigger] m@.contains_key(b) ==> bids.contains(b),
        ids_ok(bids),
    ensures
        m.has_room(),
{
    m.lemma_wf();
    let n = choose|n: int| #[trigger] crate::blockmap::ids_fit(n) && at_most(bids, n);
    if bids.len() == 0 {
        m.lemma_room_below(0);
    } else if bids.len() > n {
        assert forall|b: usize| #[trigger] m@.contains_key(b) implies b < n by {
            let i = choose|i: int| 0 <= i < bids.len() && bids[i] == b;
            assert(bids[i] < n);
        }
        assert(bids[0] < n);
        m.lemma_room_below(n);
    }
}

/// The histogram of `bids`.
fn histogram(bids: &Vec<usize>) -> (r: BlockMap<usize>)
    requires
        ids_ok(bids@),
    ensures
        r.wf(),
        is_histogram(r@, bids@),
{
    let mut counts: BlockMap<usize> = BlockMap::new();
    let mut i: usize = 0;
    while i < bids.len()
        invariant
            i <= bids@.len(),
            ids_ok(bids@),
            counts.wf(),
            counts.compact(),
            is_histogram(counts@, bids@.take(i as int)),
        decreases bids@.len() - i,
    {
        let ghost before = counts@;
        let ghost s0 = bids@.take(i as int);
        let ghost s1 = bids@.take(i + 1);
        let b: usize = bids[i];
        proof {
            counts.lemma_wf();
            lemma_histogram_len(counts@, s0);
            assert forall|q: usize| #[trigger] counts@.contains_key(q) implies bids@.contains(q) by {
                let k = choose|k: int| 0 <= k < s0.len() && s0[k] == q;
                assert(bids@[k] == q);
            }
            lemma_room(&counts, bids@);
            lemma_occurrences(s0, b);
        }
        let step = |v: usize| -> (r: usize)
            requires
                v < usize::MAX,
            ensures
                r == v + 1,
        { v + 1 };
        let now: usize = counts.update(b, 1, step);
        proof {
            assert(s1[i as int] == b);
            assert forall|q: usize| #[trigger] counts@.contains_key(q) <==> s1.contains(q) by {
                if s0.contains(q) {
                    let k = choose|k: int| 0 <= k < s0.len() && s0[k] == q;
                    assert(s1[k] == q);
                }
                if s1.contains(q) && q != b {
                    let k = choose|k: int| 0 <= k < s1.len() && s1[k] == q;
                    assert(s0[k] == q);
                }
                assert(counts@.contains_key(q) <==> before.contains_key(q) || q == b);
                assert(before.contains_key(q) <==> s0.contains(q));
            }
            assert forall|q: usize| #[trigger] counts@.contains_key(q) implies counts@[q] == occurrences(
                s1,
                q,
            ) by {
                lemma_occurrences_take(bids@, i as int, q);
                lemma_occurrences(s0, q);
                assert(before.contains_key(q) <==> s0.contains(q));
            }
        }
        i = i + 1;
    }
    proof {
        assert(bids@.take(bids@.len() as int) =~= bids@);
    }
    counts
}

/// The sum of the first `r` counts.
spec fn sum_counts(pairs: Seq<(usize, usize)>, r: int) -> int
    decreases r,
{
    if r <= 0 {
        0
    } else {
        sum_counts(pairs, r - 1) + pairs[r - 1].1
    }
}

/// All ids of `s` are counted by the first `r` blocks or by later ones.
spec fn counted(s: Seq<usize>, pairs: Seq<(usize, usize)>, r: int) -> int
    decreases s.len(),
{
    if s.len() == 0 {
        0
    } else {
        counted(s.drop_last(), pairs, r) + if exists|k: int|
            0 <= k < r && (#[trigger] pairs[k]).0 == s.last() {
            1int
        } else {
            0
        }
    }
}

proof fn lemma_counted_step(s: Seq<usize>, pairs: Seq<(usize, usize)>, r: int)
    requires
        0 <= r < pairs.len(),
        forall|i: int, j: int|
            0 <= i < j < pairs.len() ==> (#[trigger] pairs[i]).0 < (#[trigger] pairs[j]).0,
    ensures
        counted(s, pairs, r + 1) == counted(s, pairs, r) + occurrences(s, pairs[r].0),
        0 <= counted(s, pairs, r) <= s.len(),
    decreases s.len(),
{
    if s.len() > 0 {
        lemma_counted_step(s.drop_last(), pairs, r);
        let b = s.last();
        if exists|k: int| 0 <= k < r && (#[trigger] pairs[k]).0 == b {
            let k = choose|k: int| 0 <= k < r && (#[trigger] pairs[k]).0 == b;
            assert(pairs[k].0 == b);
            assert(pairs[r].0 != b);
        }
        if pairs[r].0 == b {
            assert(exists|k: int| 0 <= k < r + 1 && (#[trigger] pairs[k]).0 == b);
        }
        if exists|k: int| 0 <= k < r + 1 && (#[trigger] pairs[k]).0 == b {
            let k = choose|k: int| 0 <= k < r + 1 && (#[trigger] pairs[k]).0 == b;
            assert(k < r || pairs[r].0 == b);
        }
    }
}

proof fn lemma_counted_zero(s: Seq<usize>, pairs: Seq<(usize, usize)>)
    ensures
        counted(s, pairs, 0) == 0,
    decreases s.len(),
{
    if s.len() > 0 {
        lemma_counted_zero(s.drop_last(), pairs);
    }
}

proof fn lemma_counted_all(s: Seq<usize>, pairs: Seq<(usize, usize)>)
    requires
        forall|b: usize| #[trigger] s.contains(b) ==> exists|k: int|
            0 <= k < pairs.len() && (#[trigger] pairs[k]).0 == b,
    ensures
        counted(s, pairs, pairs.len() as int) == s.len(),
    decreases s.len(),
{
    if s.len() > 0 {
        let t = s.drop_last();
        assert forall|b: usize| #[trigger] t.contains(b) implies exists|k: int|
            0 <= k < pairs.len() && (#[trigger] pairs[k]).0 == b by {
            let i = choose|i: int| 0 <= i < t.len() && t[i] == b;
            assert(s[i] == b);
            assert(s.contains(b));
        }
        lemma_counted_all(t, pairs);
        assert(s[s.len() - 1] == s.last());
        assert(s.contains(s.last()));
    }
}

/// The sum of all counts of a histogram is the number of ids.
proof fn lemma_sum_counts(s: Seq<usize>, pairs: Seq<(usize, usize)>, r: int)
    requires
        0 <= r <= pairs.len(),
        forall|i: int, j: int|
            0 <= i < j < pairs.len() ==> (#[trigger] pairs[i]).0 < (#[trigger] pairs[j]).0,
        forall|k: int| 0 <= k < pairs.len() ==> (#[trigger] pairs[k]).1 == occurrences(s, pairs[k].0),
    ensures
        sum_counts(pairs, r) == counted(s, pairs, r),
    decreases r,
{
    if r > 0 {
        lemma_sum_counts(s, pairs, r - 1);
        lemma_counted_step(s, pairs, r - 1);
    } else {
        lemma_counted_zero(s, pairs);
    }
}

proof fn lemma_counted_bound(s: Seq<usize>, pairs: Seq<(usize, usize)>, r: int)
    ensures
        0 <= counted(s, pairs, r) <= s.len(),
    decreases s.len(),
{
    if s.len() > 0 {
        lemma_counted_bound(s.drop_last(), pairs, r);
    }
}

/// Where particle `j` goes: after the earlier blocks, and after the earlier particles of its block.
spec fn place_of(bids: Seq<usize>, starts: Seq<usize>, rank: Map<usize, usize>, j: int) -> int {
    starts[rank[bids[j]] as int] + occurrences(bids.take(j), bids[j])
}

proof fn lemma_starts_monotone(bids: Seq<usize>, blocks: Seq<usize>, starts: Seq<usize>, a: int, b: int)
    requires
        is_csr(bids, blocks, starts),
        0 <= a <= b <= blocks.len(),
    ensures
        starts[a] <= starts[b],
    decreases b - a,
{
    if a < b {
        lemma_starts_monotone(bids, blocks, starts, a, b - 1);
        assert(starts[(b - 1) + 1] == starts[b - 1] + occurrences(bids, blocks[b - 1]));
    }
}

/// The ranks are those of the block list.
spec fn is_rank(blocks: Seq<usize>, rank: Map<usize, usize>, n: int) -> bool {
    &&& forall|r: int|
        0 <= r < n ==> rank.contains_key(#[trigger] blocks[r]) && rank[blocks[r]] == r
    &&& forall|b: usize| #[trigger]
        rank.contains_key(b) ==> exists|r: int| 0 <= r < n && #[trigger] blocks[r] == b
}

proof fn lemma_place(bids: Seq<usize>, blocks: Seq<usize>, starts: Seq<usize>, rank: Map<usize, usize>, j: int)
    requires
        is_csr(bids, blocks, starts),
        is_rank(blocks, rank, blocks.len() as int),
        0 <= j < bids.len(),
    ensures
        rank.contains_key(bids[j]),
        rank[bids[j]] < blocks.len(),
        blocks[rank[bids[j]] as int] == bids[j],
        starts[rank[bids[j]] as int] <= place_of(bids, starts, rank, j),
        place_of(bids, starts, rank, j) < starts[rank[bids[j]] + 1],
        starts[rank[bids[j]] + 1] <= bids.len(),
{
    let b = bids[j];
    assert(bids.contains(b));
    assert(blocks.contains(b));
    let r = choose|r: int| 0 <= r < blocks.len() && blocks[r] == b;
    assert(rank.contains_key(blocks[r]) && rank[blocks[r]] == r);
    assert(bids.take(bids.len() as int) =~= bids);
    lemma_occurrences_monotone(bids, j, bids.len() as int, b);
    assert(starts[r + 1] == starts[r] + occurrences(bids, blocks[r]));
    lemma_starts_monotone(bids, blocks, starts, r + 1, blocks.len() as int);
}

/// Two particles never go to one place.
proof fn lemma_place_injective(
    bids: Seq<usize>,
    blocks: Seq<usize>,
    starts: Seq<usize>,
    rank: Map<usize, usize>,
    i: int,
    j: int,
)
    requires
        is_csr(bids, blocks, starts),
        is_rank(blocks, rank, blocks.len() as int),
        0 <= i < j < bids.len(),
    ensures
        place_of(bids, starts, rank, i) != place_of(bids, starts, rank, j),
        bids[i] == bids[j] ==> place_of(bids, starts, rank, i) < place_of(bids, starts, rank, j),
{
    lemma_place(bids, blocks, starts, rank, i);
    lemma_place(bids, blocks, starts, rank, j);
    if bids[i] == bids[j] {
        lemma_occurrences_monotone(bids, i, j, bids[i]);
    } else {
        let (ri, rj) = (rank[bids[i]] as int, rank[bids[j]] as int);
        if ri < rj {
            lemma_starts_monotone(bids, blocks, starts, ri + 1, rj);
        } else {
            assert(rj < ri);
            lemma_starts_monotone(bids, blocks, starts, rj + 1, ri);
        }
    }
}

/// Every place of a block has a particle.
proof fn lemma_place_surjective(
    bids: Seq<usize>,
    blocks: Seq<usize>,
    starts: Seq<usize>,
    rank: Map<usize, usize>,
    r: int,
    p: int,
) -> (j: int)
    requires
        is_csr(bids, blocks, starts),
        is_rank(blocks, rank, blocks.len() as int),
        0 <= r < blocks.len(),
        starts[r] <= p < starts[r + 1],
    ensures
        0 <= j < bids.len(),
        bids[j] == blocks[r],
        place_of(bids, starts, rank, j) == p,
{
    assert(starts[r + 1] == starts[r] + occurrences(bids, blocks[r]));
    let j = lemma_kth(bids, blocks[r], (p - starts[r]) as nat);
    assert(rank.contains_key(blocks[r]) && rank[blocks[r]] == r);
    j
}

/// The block that place `p` belongs to.
proof fn lemma_block_at(bids: Seq<usize>, blocks: Seq<usize>, starts: Seq<usize>, p: int, n: int) -> (r: int)
    requires
        is_csr(bids, blocks, starts),
        0 <= n <= blocks.len(),
        0 <= p < starts[n],
    ensures
        0 <= r < n,
        starts[r] <= p < starts[r + 1],
    decreases n,
{
    if p < starts[n - 1] {
        lemma_block_at(bids, blocks, starts, p, n - 1)
    } else {
        n - 1
    }
}

/// Start offsets and ranks of the counted blocks.
fn offsets(bids: &Vec<usize>, pairs: &Vec<(usize, usize)>) -> (r: (
    Vec<usize>,
    Vec<usize>,
    BlockMap<usize>,
))
    requires
        ids_ok(bids@),
        pairs@.len() <= bids@.len(),
        forall|i: int, j: int|
            0 <= i < j < pairs@.len() ==> (#[trigger] pairs@[i]).0 < (#[trigger] pairs@[j]).0,
        forall|k: int|
            0 <= k < pairs@.len() ==> (#[trigger] pairs@[k]).1 == occurrences(bids@, pairs@[k].0)
                && bids@.contains(pairs@[k].0),
        forall|b: usize| #[trigger] bids@.contains(b) ==> exists|k: int|
            0 <= k < pairs@.len() && (#[trigger] pairs@[k]).0 == b,
    ensures
        is_csr(bids@, r.0@, r.1@),
        r.2.wf(),
        is_rank(r.0@, r.2@, r.0@.len() as int),
{
    let n: usize = pairs.len();
    let total: usize = bids.len();
    let mut blocks: Vec<usize> = Vec::with_capacity(n);
    let mut starts: Vec<usize> = Vec::new();
    let mut rank: BlockMap<usize> = BlockMap::new();
    starts.push(0);
    let mut acc: usize = 0;
    let mut i: usize = 0;
    while i < n
        invariant
            i <= n,
            n == pairs@.len(),
            total == bids@.len(),
            n <= total,
            ids_ok(bids@),
            forall|i: int, j: int|
                0 <= i < j < pairs@.len() ==> (#[trigger] pairs@[i]).0 < (#[trigger] pairs@[j]).0,
            forall|k: int|
                0 <= k < pairs@.len() ==> (#[trigger] pairs@[k]).1 == occurrences(
                    bids@,
                    pairs@[k].0,
                ) && bids@.contains(pairs@[k].0),
            blocks@ == Seq::new(i as nat, |k: int| pairs@[k].0),
            acc == sum_counts(pairs@, i as int),
            starts@.len() == i + 1,
            starts@[0] == 0,
            starts@[i as int] == acc,
            forall|r: int|
                0 <= r < i ==> #[trigger] starts@[r + 1] == starts@[r] + occurrences(
                    bids@,
                    pairs@[r].0,
                ),
            rank.wf(),
            rank.compact(),
            rank@.len() == i,
            is_rank(blocks@, rank@, i as int),
        decreases n - i,
    {
        let (bid, count) = pairs[i];
        let ghost rank0 = rank@;
        let ghost blocks0 = blocks@;
        let ghost starts0 = starts@;
        proof {
            lemma_sum_counts(bids@, pairs@, i + 1);
            lemma_counted_bound(bids@, pairs@, i + 1);
            rank.lemma_wf();
            assert forall|q: usize| #[trigger] rank@.contains_key(q) implies bids@.contains(q) by {
                let r = choose|r: int| 0 <= r < i && #[trigger] blocks0[r] == q;
                assert(pairs@[r].0 == q);
            }
            lemma_room(&rank, bids@);
            assert(bids@.contains(pairs@[i as int].0));
            let q = choose|q: int| 0 <= q < bids@.len() && bids@[q] == bid;
            assert(crate::blockmap::valid_key(bids@[q]));
            if rank0.contains_key(bid) {
                let r = choose|r: int| 0 <= r < i && #[trigger] blocks0[r] == bid;
                assert(pairs@[r].0 == bid);
                assert(pairs@[r].0 < pairs@[i as int].0);
            }
        }
        blocks.push(bid);
        rank.insert(bid, i);
        acc = acc + count;
        starts.push(acc);
        proof {
            assert(rank@.dom() =~= rank0.dom().insert(bid));
            assert forall|r: int| 0 <= r < i + 1 implies rank@.contains_key(#[trigger] blocks@[r])
                && rank@[blocks@[r]] == r by {
                if r < i {
                    assert(blocks@[r] == blocks0[r]);
                    assert(rank0.contains_key(blocks0[r]));
                }
            }
            assert forall|b: usize| #[trigger] rank@.contains_key(b) implies exists|r: int|
                0 <= r < i + 1 && #[trigger] blocks@[r] == b by {
                if b == bid {
                    assert(blocks@[i as int] == b);
                } else {
                    assert(rank0.contains_key(b));
                    let r = choose|r: int| 0 <= r < i && #[trigger] blocks0[r] == b;
                    assert(blocks@[r] == b);
                }
            }
            assert forall|r: int| 0 <= r < i + 1 implies #[trigger] starts@[r + 1] == starts@[r]
                + occurrences(bids@, pairs@[r].0) by {
                if r < i {
                    assert(starts@[r + 1] == starts0[r + 1] && starts@[r] == starts0[r]);
                }
            }
        }
        i = i + 1;
    }
    proof {
        lemma_sum_counts(bids@, pairs@, n as int);
        lemma_counted_all(bids@, pairs@);
        assert forall|b: usize| #[trigger] bids@.contains(b) implies blocks@.contains(b) by {
            let k = choose|k: int| 0 <= k < pairs@.len() && (#[trigger] pairs@[k]).0 == b;
            assert(blocks@[k] == b);
        }
        assert forall|r: int| 0 <= r < blocks@.len() implies bids@.contains(#[trigger] blocks@[r]) by {
            assert(bids@.contains(pairs@[r].0));
        }
        assert forall|a: int, b: int| 0 <= a < b < blocks@.len() implies #[trigger] blocks@[a]
            < #[trigger] blocks@[b] by {
            assert(pairs@[a].0 < pairs@[b].0);
        }
    }
    (blocks, starts, rank)
}

/// The stable counting sort of particles by block: `bids[j]` is the block of particle `j`.
pub fn bucket_indices(bids: &Vec<usize>) -> (r: BucketPlan)
    requires
        ids_ok(bids@),
    ensures
        is_bucketing(bids@, r),
{
    let n: usize = bids.len();
    let counts: BlockMap<usize> = histogram(bids);
    let pairs: Vec<(usize, usize)> = counts.sorted_pairs();
    proof {
        counts.lemma_wf();
        lemma_histogram_len(counts@, bids@);
        assert forall|k: int| 0 <= k < pairs@.len() implies (#[trigger] pairs@[k]).1 == occurrences(
            bids@,
            pairs@[k].0,
        ) && bids@.contains(pairs@[k].0) by {
            assert(counts@.contains_key(pairs@[k].0));
        }
        assert forall|b: usize| #[trigger] bids@.contains(b) implies exists|k: int|
            0 <= k < pairs@.len() && (#[trigger] pairs@[k]).0 == b by {
            assert(counts@.contains_key(b));
        }
    }
    let (particle_blocks, starts, rank) = offsets(bids, &pairs);
    let ghost blocks = particle_blocks@;
    let nblk: usize = particle_blocks.len();
    let mut cursors: Vec<usize> = crate::arith::filled(nblk, 0usize);
    let mut perm: Vec<usize> = crate::arith::filled(n, 0usize);
    let mut j: usize = 0;
    proof {
        assert(bids@.take(0) =~= Seq::<usize>::empty());
    }
    while j < n
        invariant
            j <= n,
            n == bids@.len(),
            ids_ok(bids@),
            is_csr(bids@, blocks, starts@),
            blocks == particle_blocks@,
            rank.wf(),
            is_rank(blocks, rank@, blocks.len() as int),
            nblk == blocks.len(),
            cursors@.len() == nblk,
            forall|r: int|
                0 <= r < nblk ==> #[trigger] cursors@[r] == occurrences(
                    bids@.take(j as int),
                    blocks[r],
                ),
            perm@.len() == n,
            forall|k: int|
                0 <= k < j ==> perm@[#[trigger] place_of(bids@, starts@, rank@, k)] == k,
        decreases n - j,
    {
        let bid: usize = bids[j];
        proof {
            lemma_place(bids@, blocks, starts@, rank@, j as int);
            assert(crate::blockmap::valid_key(bids@[j as int]));
        }
        if let Some(r) = rank.get(bid) {
            let off: usize = cursors[r];
            assert(starts@[r as int] + off == place_of(bids@, starts@, rank@, j as int));
            let ghost perm0 = perm@;
            perm[starts[r] + off] = j;
            cursors[r] = off + 1;
            proof {
                assert forall|k: int| 0 <= k < j + 1 implies perm@[#[trigger] place_of(
                    bids@,
                    starts@,
                    rank@,
                    k,
                )] == k by {
                    if k < j {
                        lemma_place_injective(bids@, blocks, starts@, rank@, k, j as int);
                        lemma_place(bids@, blocks, starts@, rank@, k);
                        assert(perm0[place_of(bids@, starts@, rank@, k)] == k);
                    }
                }
                assert forall|q: int| 0 <= q < nblk implies #[trigger] cursors@[q] == occurrences(
                    bids@.take(j + 1),
                    blocks[q],
                ) by {
                    lemma_occurrences_take(bids@, j as int, blocks[q]);
                    if q != r {
                        assert(blocks[q] != bid) by {
                            if q < r {
                                assert(blocks[q] < blocks[r as int]);
                            } else {
                                assert(blocks[r as int] < blocks[q]);
                            }
                        }
                    }
                }
            }
        } else {
            assert(false);
        }
        j = j + 1;
    }
    proof {
        lemma_block_major(bids@, blocks, starts@, rank@, perm@);
    }
    BucketPlan { perm, particle_blocks, starts }
}

proof fn lemma_block_major(
    bids: Seq<usize>,
    blocks: Seq<usize>,
    starts: Seq<usize>,
    rank: Map<usize, usize>,
    perm: Seq<usize>,
)
    requires
        is_csr(bids, blocks, starts),
        is_rank(blocks, rank, blocks.len() as int),
        perm.len() == bids.len(),
        forall|k: int|
            0 <= k < bids.len() ==> perm[#[trigger] place_of(bids, starts, rank, k)] == k,
    ensures
        is_block_major(bids, blocks, starts, perm),
{
    assert forall|i: int| 0 <= i < perm.len() implies {
        &&& (#[trigger] perm[i]) < bids.len()
        &&& place_of(bids, starts, rank, perm[i] as int) == i
    } by {
        let r = lemma_block_at(bids, blocks, starts, i, blocks.len() as int);
        let j = lemma_place_surjective(bids, blocks, starts, rank, r, i);
        assert(perm[place_of(bids, starts, rank, j)] == j);
    }
    assert forall|r: int, i: int|
        0 <= r < blocks.len() && starts[r] <= i < starts[r + 1] implies bids[#[trigger] perm[i] as int]
        == #[trigger] blocks[r] by {
        lemma_starts_monotone(bids, blocks, starts, r + 1, blocks.len() as int);
        let j = lemma_place_surjective(bids, blocks, starts, rank, r, i);
        assert(perm[place_of(bids, starts, rank, j)] == j);
    }
    assert forall|r: int, i: int, j: int|
        #![trigger blocks[r], perm[i], perm[j]]
        0 <= r < blocks.len() && starts[r] <= i < j < starts[r + 1] implies perm[i] < perm[j] by {
        lemma_starts_monotone(bids, blocks, starts, r + 1, blocks.len() as int);
        let a = lemma_place_surjective(bids, blocks, starts, rank, r, i);
        let b = lemma_place_surjective(bids, blocks, starts, rank, r, j);
        assert(perm[place_of(bids, starts, rank, a)] == a);
        assert(perm[place_of(bids, starts, rank, b)] == b);
        if b < a {
            lemma_place_injective(bids, blocks, starts, rank, b, a);
        }
    }
}

/// Particle data in block-major order.
pub struct Bucketed<T> {
    pub positions: Vec<T>,
    /// Blocks with at least one particle, by increasing id.
    pub particle_blocks: Vec<usize>,
    /// Start offsets of the blocks in `particle_blocks`, and the number of particles at the end.
    pub starts: Vec<usize>,
}

/// The items of `s` in the order of `perm`.
pub open spec fn permuted<T>(s: Seq<T>, perm: Seq<usize>) -> Seq<T> {
    Seq::new(perm.len(), |i: int| s[perm[i] as int])
}

/// The items of `v` in the order of `perm`.
pub fn permute<T: Copy>(v: &Vec<T>, perm: &Vec<usize>) -> (r: Vec<T>)
    requires
        forall|i: int| 0 <= i < perm@.len() ==> (#[trigger] perm@[i]) < v@.len(),
    ensures
        r@ == permuted(v@, perm@),
{
    let mut r: Vec<T> = Vec::with_capacity(perm.len());
    let mut i: usize = 0;
    while i < perm.len()
        invariant
            i <= perm@.len(),
            forall|k: int| 0 <= k < perm@.len() ==> (#[trigger] perm@[k]) < v@.len(),
            r@ == permuted(v@, perm@.take(i as int)),
        decreases perm@.len() - i,
    {
        assert(perm@[i as int] < v@.len());
        r.push(v[perm[i]]);
        proof {
            assert(r@ =~= permuted(v@, perm@.take(i + 1)));
        }
        i = i + 1;
    }
    proof {
        assert(perm@.take(perm@.len() as int) =~= perm@);
    }
    r
}

/// `r` are the particles in block-major order.
pub open spec fn is_sorted_by_block<T>(positions: Seq<T>, bids: Seq<usize>, r: Bucketed<T>) -> bool {
    exists|plan: BucketPlan| #[trigger]
        is_bucketing(bids, plan) && r.positions@ == permuted(positions, plan.perm@)
            && r.particle_blocks == plan.particle_blocks && r.starts == plan.starts
}

/// Sorts particles into block-major order: `bids[j]` is the block of `positions[j]`.
pub fn bucket_by_block<T: Copy>(positions: Vec<T>, bids: Vec<usize>) -> (r: Bucketed<T>)
    requires
        positions@.len() == bids@.len(),
        ids_ok(bids@),
    ensures
        is_sorted_by_block(positions@, bids@, r),
{
    let plan = bucket_indices(&bids);
    let ordered: Vec<T> = permute(&positions, &plan.perm);
    let ghost p = plan;
    assert(is_bucketing(bids@, p));
    Bucketed { positions: ordered, particle_blocks: plan.particle_blocks, starts: plan.starts }
}

/// The block list and the offsets of a bucketing follow from the ids alone.
pub proof fn law_blocks_and_offsets_unique(bids: Seq<usize>, a: BucketPlan, b: BucketPlan)
    requires
        is_bucketing(bids, a),
        is_bucketing(bids, b),
    ensures
        a.particle_blocks@ == b.particle_blocks@,
        a.starts@ == b.starts@,
{
    lemma_sorted_unique(bids, a.particle_blocks@, b.particle_blocks@);
    let blocks = a.particle_blocks@;
    assert forall|r: int| 0 <= r <= blocks.len() implies a.starts@[r] == b.starts@[r] by {
        lemma_starts_equal(bids, blocks, a.starts@, b.starts@, r);
    }
    assert(a.starts@ =~= b.starts@);
}

proof fn lemma_starts_equal(bids: Seq<usize>, blocks: Seq<usize>, a: Seq<usize>, b: Seq<usize>, r: int)
    requires
        is_csr(bids, blocks, a),
        is_csr(bids, blocks, b),
        0 <= r <= blocks.len(),
    ensures
        a[r] == b[r],
    decreases r,
{
    if r > 0 {
        lemma_starts_equal(bids, blocks, a, b, r - 1);
        assert(a[(r - 1) + 1] == a[r - 1] + occurrences(bids, blocks[r - 1]));
        assert(b[(r - 1) + 1] == b[r - 1] + occurrences(bids, blocks[r - 1]));
    }
}

/// Two strictly increasing lists with the same members are equal.
proof fn lemma_sorted_unique(bids: Seq<usize>, a: Seq<usize>, b: Seq<usize>)
    requires
        forall|i: int, j: int| 0 <= i < j < a.len() ==> #[trigger] a[i] < #[trigger] a[j],
        forall|i: int, j: int| 0 <= i < j < b.len() ==> #[trigger] b[i] < #[trigger] b[j],
        forall|i: int| 0 <= i < a.len() ==> bids.contains(#[trigger] a[i]),
        forall|i: int| 0 <= i < b.len() ==> bids.contains(#[trigger] b[i]),
        forall|x: usize| #[trigger] bids.contains(x) ==> a.contains(x),
        forall|x: usize| #[trigger] bids.contains(x) ==> b.contains(x),
    ensures
        a == b,
{
    let leq = |x: usize, y: usize| x <= y;
    assert(a.to_multiset() =~= b.to_multiset()) by {
        broadcast use vstd::seq_lib::group_to_multiset_ensures;

        assert(a.no_duplicates());
        assert(b.no_duplicates());
        a.lemma_multiset_has_no_duplicates();
        b.lemma_multiset_has_no_duplicates();
        assert forall|x: usize| a.to_multiset().count(x) == b.to_multiset().count(x) by {
            assert(a.contains(x) <==> bids.contains(x)) by {
                if a.contains(x) {
                    let i = choose|i: int| 0 <= i < a.len() && a[i] == x;
                    assert(bids.contains(a[i]));
                }
            }
            assert(b.contains(x) <==> bids.contains(x)) by {
                if b.contains(x) {
                    let i = choose|i: int| 0 <= i < b.len() && b[i] == x;
                    assert(bids.contains(b[i]));
                }
            }
            assert(a.contains(x) <==> a.to_multiset().count(x) > 0);
            assert(b.contains(x) <==> b.to_multiset().count(x) > 0);
        }
    }
    vstd::seq_lib::lemma_sorted_unique(a, b, leq);
}

/// What placement has to know of one particle: whether it is inside the domain bounds, its position
/// truncated to a voxel, and the blocks its footprint reaches.
#[derive(Clone, Copy, Debug, PartialEq, Eq, Structural)]
pub struct Candidate {
    pub inside: bool,
    pub x: i32,
    pub y: i32,
    pub z: i32,
    pub footprint: BlockBox,
}

/// Placed particles: which candidates were kept, the centre block of each, and the blocks that their
/// footprints reach.
pub struct Placed {
    pub kept: Vec<usize>,
    pub bids: Vec<usize>,
    pub active: Vec<usize>,
}

/// The candidate is kept: inside the bounds, and on a voxel of the grid.
pub open spec fn is_kept(c: Candidate, dims: &GridDims) -> bool {
    c.inside && 0 <= c.x < dims.sx && 0 <= c.y < dims.sy && 0 <= c.z < dims.sz
}

/// The block that the candidate's voxel lies in.
pub open spec fn center_of(c: Candidate, dims: &GridDims) -> int {
    dims.spec_block_of(c.x as int, c.y as int, c.z as int)
}

/// The indices below `n` of the candidates that are kept, in order.
pub open spec fn kept_below(cands: Seq<Candidate>, dims: &GridDims, n: int) -> Seq<usize>
    decreases n,
{
    if n <= 0 {
        seq![]
    } else {
        let rest = kept_below(cands, dims, n - 1);
        if is_kept(cands[n - 1], dims) {
            rest.push((n - 1) as usize)
        } else {
            rest
        }
    }
}

/// Keeps the candidates that lie in the domain, assigns each to its centre block, and collects the
/// blocks that their footprints reach.
pub fn place(cands: &Vec<Candidate>, dims: &GridDims) -> (r: Placed)
    requires
        dims.wf(),
        crate::particles::active::reach_fits(
            crate::particles::surface::footprints(
                cands@,
                kept_below(cands@, dims, cands@.len() as int),
            ),
            dims,
        ),
    ensures
        r.kept@ == kept_below(cands@, dims, cands@.len() as int),
        r.bids@.len() == r.kept@.len(),
        forall|i: int|
            0 <= i < r.bids@.len() ==> r.bids@[i] < dims.count() && #[trigger] r.bids@[i] == center_of(
                cands@[r.kept@[i] as int],
                dims,
            ),
        crate::particles::active::are_active_blocks(
            r.active@,
            crate::particles::surface::footprints(cands@, r.kept@),
            dims,
        ),
{
    let mut kept: Vec<usize> = Vec::new();
    let mut bids: Vec<usize> = Vec::new();
    let mut boxes: Vec<BlockBox> = Vec::new();
    let mut i: usize = 0;
    while i < cands.len()
        invariant
            i <= cands@.len(),
            dims.wf(),
            kept@ == kept_below(cands@, dims, i as int),
            kept@.len() <= i,
            bids@.len() == kept@.len(),
            boxes@.len() == kept@.len(),
            forall|k: int|
                0 <= k < bids@.len() ==> bids@[k] < dims.count() && #[trigger] bids@[k] == center_of(
                    cands@[kept@[k] as int],
                    dims,
                ),
            forall|k: int|
                0 <= k < boxes@.len() ==> #[trigger] boxes@[k] == cands@[kept@[k] as int].footprint,
        decreases cands@.len() - i,
    {
        let c: Candidate = cands[i];
        if c.inside && c.x >= 0 && c.y >= 0 && c.z >= 0 && (c.x as usize) < dims.sx && (c.y as usize)
            < dims.sy && (c.z as usize) < dims.sz {
            bids.push(dims.block_of(c.x as usize, c.y as usize, c.z as usize));
            boxes.push(c.footprint);
            kept.push(i);
        }
        i = i + 1;
    }
    proof {
        assert(boxes@ =~= crate::particles::surface::footprints(cands@, kept@));
    }
    let active: Vec<usize> = active_blocks(&boxes, dims);
    Placed { kept, bids, active }
}

/// How many instances there are: as many as asked for, or as many as there are to begin with.
pub open spec fn instances(n_instances: usize, n_base: usize) -> usize {
    if n_instances == 0 {
        n_base
    } else {
        n_instances
    }
}

/// How many instances are placed: the given number, or one for each base point where none is given.
pub fn instance_count(n_instances: usize, n_base: usize) -> (r: usize)
    ensures
        r == instances(n_instances, n_base),
{
    if n_instances == 0 {
        n_base
    } else {
        n_instances
    }
}

/// A block occurs in a list as often as in its parts together, and once in a list of itself alone.
pub proof fn law_occurrences(s: Seq<usize>, t: Seq<usize>, a: usize, b: usize)
    ensures
        occurrences(s + t, b) == occurrences(s, b) + occurrences(t, b),
        occurrences(seq![a], b) == (if a == b {
            1nat
        } else {
            0
        }),
    decreases t.len(),
{
    assert(seq![a].drop_last() =~= seq![]);
    assert(occurrences(seq![a].drop_last(), b) == 0);
    if t.len() == 0 {
        assert(s + t =~= s);
    } else {
        law_occurrences(s, t.drop_last(), a, b);
        assert((s + t).drop_last() =~= s + t.drop_last());
    }
}

/// The bucketed order is the stable sort of the particles by their block: no particle is left out or
/// placed twice, of two particles the one in the lower block comes first, and those of one block keep
/// their order.
pub proof fn law_bucketing_is_stable_sort(bids: Seq<usize>, plan: BucketPlan, i: int, j: int)
    requires
        is_bucketing(bids, plan),
        0 <= i < j < plan.perm@.len(),
    ensures
        plan.perm@.len() == bids.len(),
        plan.perm@[i] < bids.len() && plan.perm@[j] < bids.len(),
        plan.perm@[i] != plan.perm@[j],
        bids[plan.perm@[i] as int] < bids[plan.perm@[j] as int] || (bids[plan.perm@[i] as int]
            == bids[plan.perm@[j] as int] && plan.perm@[i] < plan.perm@[j]),
{
    let (blocks, starts) = (plan.particle_blocks@, plan.starts@);
    let n = blocks.len() as int;
    let r = lemma_block_at(bids, blocks, starts, i, n);
    let s = lemma_block_at(bids, blocks, starts, j, n);
    assert(bids[plan.perm@[i] as int] == blocks[r]);
    assert(bids[plan.perm@[j] as int] == blocks[s]);
    if s < r {
        lemma_starts_monotone(bids, blocks, starts, s + 1, r);
    }
}

/// The particles of a block stand between its start and the next one: place `i` is in the bucket of
/// the `r`-th block exactly if the particle there is in that block.
pub proof fn law_bucket_bounds(bids: Seq<usize>, plan: BucketPlan, r: int, i: int)
    requires
        is_bucketing(bids, plan),
        0 <= r < plan.particle_blocks@.len(),
        0 <= i < plan.perm@.len(),
    ensures
        plan.starts@[r] <= i < plan.starts@[r + 1] <==> bids[plan.perm@[i] as int]
            == plan.particle_blocks@[r],
        plan.starts@[0] == 0,
        plan.starts@[plan.particle_blocks@.len() as int] == bids.len(),
{
    let (blocks, starts) = (plan.particle_blocks@, plan.starts@);
    let s = lemma_block_at(bids, blocks, starts, i, blocks.len() as int);
    assert(bids[plan.perm@[i] as int] == blocks[s]);
    if s < r {
        lemma_starts_monotone(bids, blocks, starts, s + 1, r);
    }
    if r < s {
        lemma_starts_monotone(bids, blocks, starts, r + 1, s);
    }
}

/// The kept particles are those that are flagged as inside and whose voxel lies in the domain.
pub proof fn law_kept_particles(cands: Seq<Candidate>, dims: &GridDims, n: int, i: usize)
    requires
        0 <= n <= cands.len() <= usize::MAX,
    ensures
        kept_below(cands, dims, n).contains(i) <==> i < n && cands[i as int].inside && 0
            <= cands[i as int].x < dims.sx && 0 <= cands[i as int].y < dims.sy && 0
            <= cands[i as int].z < dims.sz,
        forall|a: int, b: int|
            0 <= a < b < kept_below(cands, dims, n).len() ==> #[trigger] kept_below(cands, dims, n)[a]
                < #[trigger] kept_below(cands, dims, n)[b],
        forall|a: int|
            0 <= a < kept_below(cands, dims, n).len() ==> #[trigger] kept_below(cands, dims, n)[a] < n,
    decreases n,
{
    if n > 0 {
        law_kept_particles(cands, dims, n - 1, i);
        let rest = kept_below(cands, dims, n - 1);
        let last = (n - 1) as usize;
        if is_kept(cands[n - 1], dims) {
            let all = rest.push(last);
            assert(all.contains(i) <==> rest.contains(i) || i == last) by {
                assert(all[rest.len() as int] == last);
                if rest.contains(i) {
                    let k = choose|k: int| 0 <= k < rest.len() && rest[k] == i;
                    assert(all[k] == i);
                }
            }
        }
    }
}

/// A particle belongs to the block of its voxel, whichever voxel of that block it is.
pub proof fn law_center_is_block_of_voxel(
    c: Candidate,
    dims: &GridDims,
    i: int,
    j: int,
    k: int,
)
    requires
        0 < dims.bsx,
        dims.bsx * i <= c.x < dims.bsx * i + dims.bsx,
        dims.bsx * j <= c.y < dims.bsx * j + dims.bsx,
        dims.bsx * k <= c.z < dims.bsx * k + dims.bsx,
    ensures
        center_of(c, dims) == i + dims.nx * j + dims.nx * dims.ny * k,
{
    let b = dims.bsx as int;
    crate::particles::dims::law_block_of_voxel(dims, i, j, k, c.x - b * i, c.y - b * j, c.z - b * k);
}

/// The particles in block-major order are the particles: each place has the one it comes from, no
/// two come from one place, of two the one in the lower block comes first, and in one block the one
/// that came first. The starts say where the particles of each block begin and end.
pub proof fn law_sorted_by_block<T>(positions: Seq<T>, bids: Seq<usize>, r: Bucketed<T>) -> (from: Seq<
    usize,
>)
    requires
        positions.len() == bids.len(),
        is_sorted_by_block(positions, bids, r),
    ensures
        from.len() == bids.len(),
        r.positions@.len() == bids.len(),
        forall|i: int|
            0 <= i < from.len() ==> (#[trigger] from[i]) < bids.len() && r.positions@[i]
                == positions[from[i] as int],
        forall|i: int, j: int|
            #![trigger from[i], from[j]]
            0 <= i < j < from.len() ==> from[i] != from[j] && (bids[from[i] as int]
                < bids[from[j] as int] || (bids[from[i] as int] == bids[from[j] as int] && from[i]
                < from[j])),
        forall|k: int, i: int|
            #![trigger r.particle_blocks@[k], from[i]]
            0 <= k < r.particle_blocks@.len() && 0 <= i < from.len() ==> (r.starts@[k] <= i
                < r.starts@[k + 1] <==> bids[from[i] as int] == r.particle_blocks@[k]),
{
    let plan = choose|plan: BucketPlan| #[trigger]
        is_bucketing(bids, plan) && r.positions@ == permuted(positions, plan.perm@)
            && r.particle_blocks == plan.particle_blocks && r.starts == plan.starts;
    let from = plan.perm@;
    assert forall|i: int, j: int|
        #![trigger from[i], from[j]]
        0 <= i < j < from.len() implies from[i] != from[j] && (bids[from[i] as int]
        < bids[from[j] as int] || (bids[from[i] as int] == bids[from[j] as int] && from[i]
        < from[j])) by {
        law_bucketing_is_stable_sort(bids, plan, i, j);
    }
    assert forall|k: int, i: int|
        #![trigger r.particle_blocks@[k], from[i]]
        0 <= k < r.particle_blocks@.len() && 0 <= i < from.len() implies (r.starts@[k] <= i
        < r.starts@[k + 1] <==> bids[from[i] as int] == r.particle_blocks@[k]) by {
        law_bucket_bounds(bids, plan, k, i);
    }
    from
}

/// Asking for a number of instances gives that number, and asking for none gives those there are.
pub proof fn law_instances(n: usize, base: usize, other: usize)
    ensures
        instances(0, base) == base,
        0 < n ==> instances(n, base) == n && instances(n, base) == instances(n, other),
{
}

} // verus!
