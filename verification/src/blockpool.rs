//! Cubic blocks of voxels, and the monotonic pool that hands them out.

use vstd::prelude::*;

verus! {

/// The 512-bit vector register type of `core`. It is 64 bytes wide and 64-byte aligned; nothing
/// else is known of it here.
#[verifier::external_type_specification]
#[verifier::external_body]
pub struct ExWideRegister(core::arch::x86_64::__m512i);

/// The shape of a block: an edge that is a power of two, and as many voxels as the cube has.
pub open spec fn block_shape(bsx: int, n: int) -> bool {
    crate::arith::is_pow2(bsx) && 0 < bsx && n == bsx * bsx * bsx
}

/// A cube of `BSX` voxels an edge, `N` in all, x fastest.
pub struct Block<D, const BSX: usize, const N: usize> where D: Copy + Default + Send + Sync {
    /// The voxels.
    pub data: [D; N],
    /// Block status metadata.
    pub flags: u16,
    /// Fills the block up to whole 64-byte lines.
    pub _pad: [u8; 62],
    /// Holds nothing, and gives the block the alignment of a cache line.
    pub _align: [core::arch::x86_64::__m512i; 0],
}

impl<D, const BSX: usize, const N: usize> Block<D, BSX, N> where D: Copy + Default + Send + Sync {
    /// The value of voxel `(vx, vy, vz)`.
    pub open spec fn voxel(&self, vx: int, vy: int, vz: int) -> D {
        self.data@[crate::layout::index3(vx, vy, vz, BSX as int, BSX as int)]
    }

    /// All voxels have value `v`.
    pub open spec fn is_filled_with(&self, v: D) -> bool {
        self.data@ == Seq::new(N as nat, |i: int| v)
    }

    /// The flags are clear and all voxels have the default value of `D`.
    pub open spec fn is_default(&self) -> bool {
        &&& self.flags == 0
        &&& exists|v: D| #[trigger] call_ensures(D::default, (), v) && self.is_filled_with(v)
    }

    /// A block whose voxels have the default value and whose flags are clear.
    pub fn new() -> (r: Self)
        requires
            block_shape(BSX as int, N as int),
        ensures
            r.is_default(),
    {
        let v: D = D::default();
        let r = Block { data: [v; N], flags: 0, _pad: [0; 62], _align: [] };
        assert(r.data@ =~= Seq::new(N as nat, |i: int| v));
        r
    }

    /// The value of voxel `(vx, vy, vz)`.
    pub fn get_voxel(&self, vx: usize, vy: usize, vz: usize) -> (r: D)
        requires
            block_shape(BSX as int, N as int),
            vx < BSX,
            vy < BSX,
            vz < BSX,
        ensures
            r == self.voxel(vx as int, vy as int, vz as int),
    {
        proof {
            crate::layout::lemma_index3(
                vx as int,
                vy as int,
                vz as int,
                BSX as int,
                BSX as int,
                BSX as int,
            );
        }
        self.data[voxel_index::<BSX>(vx, vy, vz)]
    }
}

/// The index of voxel `(vx, vy, vz)` in a block of edge `BSX`.
pub fn voxel_index<const BSX: usize>(vx: usize, vy: usize, vz: usize) -> (r: usize)
    requires
        vx < BSX,
        vy < BSX,
        vz < BSX,
        BSX * BSX * BSX <= usize::MAX,
    ensures
        r == crate::layout::index3(vx as int, vy as int, vz as int, BSX as int, BSX as int),
        r < BSX * BSX * BSX,
{
    proof {
        let b = BSX as int;
        crate::layout::lemma_index3(vx as int, vy as int, vz as int, b, b, b);
        assert(vz * b + vy < b * b) by (nonlinear_arith)
            requires
                0 <= vz < b,
                0 <= vy < b,
        ;
        assert(b * b <= b * b * b) by (nonlinear_arith)
            requires
                1 <= b,
        ;
        assert((vz * b + vy) * b + vx == crate::layout::index3(
            vx as int,
            vy as int,
            vz as int,
            b,
            b,
        )) by (nonlinear_arith);
        assert(0 <= vz * b) by (nonlinear_arith)
            requires
                0 <= vz,
                0 <= b,
        ;
        assert(0 <= (vz * b + vy) * b) by (nonlinear_arith)
            requires
                0 <= vz * b + vy,
                0 <= b,
        ;
    }
    (vz * BSX + vy) * BSX + vx
}

/// A handle on a block: its slot in the pool that handed it out.
#[derive(Clone, Copy, Debug, PartialEq, Eq, Structural)]
pub struct BlockPtr(pub usize);

impl BlockPtr {
    /// Where the handle points to: the slot in the pool.
    pub fn as_ptr(self) -> (r: usize)
        ensures
            r == self.0,
    {
        self.0
    }
}

/// Monotonic allocator: hands out its slots one after the other, and takes memory a segment of
/// blocks at a time, when the first slot of the segment is handed out.
pub struct BlockPool<D, const BSX: usize, const N: usize> where D: Copy + Default + Send + Sync {
    /// The slot that is handed out next.
    next_free: usize,
    /// Number of blocks of a segment, a power of two.
    blocks_per_seg: usize,
    /// How many segments there may be.
    max_segments: usize,
    /// The segments that were taken so far.
    segments: Vec<Vec<Block<D, BSX, N>>>,
}

impl<D, const BSX: usize, const N: usize> BlockPool<D, BSX, N> where
    D: Copy + Default + Send + Sync,
 {
    /// The invariant of the pool.
    pub closed spec fn wf(&self) -> bool {
        &&& block_shape(BSX as int, N as int)
        &&& 0 < self.blocks_per_seg
        &&& self.segments@.len() <= self.max_segments
        &&& self.max_segments * self.blocks_per_seg <= usize::MAX
        &&& self.next_free <= self.segments@.len() * self.blocks_per_seg
        &&& forall|s: int|
            0 <= s < self.segments@.len() ==> (#[trigger] self.segments@[s])@.len()
                == self.blocks_per_seg
    }

    /// How many slots are handed out.
    pub closed spec fn spec_allocated(&self) -> int {
        self.next_free as int
    }

    /// How many slots the pool may hand out.
    pub closed spec fn spec_limit(&self) -> int {
        self.max_segments * self.blocks_per_seg
    }

    /// How many slots have memory.
    pub closed spec fn spec_len(&self) -> int {
        self.segments@.len() * self.blocks_per_seg
    }

    /// The block in slot `i`.
    pub closed spec fn spec_block(&self, i: int) -> Block<D, BSX, N> {
        self.segments@[i / (self.blocks_per_seg as int)]@[i % (self.blocks_per_seg as int)]
    }

    /// What the invariant says of the numbers a caller can see.
    pub proof fn lemma_wf(&self)
        requires
            self.wf(),
        ensures
            block_shape(BSX as int, N as int),
            0 <= self.spec_allocated() <= self.spec_len() <= self.spec_limit() <= usize::MAX,
    {
        assert(self.segments@.len() * self.blocks_per_seg <= self.max_segments
            * self.blocks_per_seg) by (nonlinear_arith)
            requires
                self.segments@.len() <= self.max_segments,
        ;
    }

    proof fn lemma_slot(&self, i: int)
        requires
            self.wf(),
            0 <= i < self.spec_len(),
        ensures
            0 <= i / (self.blocks_per_seg as int),
            i / (self.blocks_per_seg as int) < self.segments@.len(),
            0 <= i % (self.blocks_per_seg as int),
            i % (self.blocks_per_seg as int) < self.blocks_per_seg,
    {
        let b = (self.blocks_per_seg as int);
        vstd::arithmetic::div_mod::lemma_mod_bound(i, b);
        vstd::arithmetic::div_mod::lemma_div_pos_is_pos(i, b);
        vstd::arithmetic::div_mod::lemma_multiply_divide_lt(i, b, self.segments@.len() as int);
    }

    /// A pool of at most `max_segments` segments of `blocks_per_seg` blocks, none of them taken.
    pub fn new(max_segments: usize, blocks_per_seg: usize) -> (r: Self)
        requires
            block_shape(BSX as int, N as int),
            crate::arith::is_pow2(blocks_per_seg as int),
            0 < blocks_per_seg,
            0 < max_segments,
            max_segments * blocks_per_seg <= usize::MAX,
        ensures
            r.wf(),
            r.spec_allocated() == 0,
            r.spec_len() == 0,
            r.spec_limit() == max_segments * blocks_per_seg,
    {
        BlockPool {
            next_free: 0,
            blocks_per_seg,
            max_segments,
            segments: Vec::with_capacity(max_segments),
        }
    }

    /// How many blocks can still be handed out.
    pub fn remaining(&self) -> (r: usize)
        requires
            self.wf(),
        ensures
            r == self.spec_limit() - self.spec_allocated(),
    {
        proof {
            self.lemma_wf();
        }
        self.max_segments * self.blocks_per_seg - self.next_free
    }

    /// What handing out slot `r` makes of the pool.
    pub open spec fn is_alloc(before: Self, after: Self, r: BlockPtr) -> bool {
        &&& before.spec_allocated() < before.spec_limit()
        &&& after.wf()
        &&& r.0 == before.spec_allocated()
        &&& after.spec_allocated() == before.spec_allocated() + 1
        &&& after.spec_limit() == before.spec_limit()
    }

    /// Hands out the next slot. A slot of a segment that is new holds a default block; one of a
    /// segment that was there before keeps what it held.
    pub fn alloc_block(&mut self) -> (r: BlockPtr)
        requires
            old(self).wf(),
            old(self).spec_allocated() < old(self).spec_limit(),
        ensures
            Self::is_alloc(*old(self), *final(self), r),
            final(self).spec_len() >= old(self).spec_len(),
            forall|i: int|
                0 <= i < old(self).spec_len() ==> #[trigger] final(self).spec_block(i) == old(
                    self,
                ).spec_block(i),
            forall|i: int|
                old(self).spec_len() <= i < final(self).spec_len() ==> (
                #[trigger] final(self).spec_block(i)).is_default(),
    {
        let index: usize = self.next_free;
        if index / self.blocks_per_seg >= self.segments.len() {
            self.extend_pool();
        }
        proof {
            let b = (self.blocks_per_seg as int);
            vstd::arithmetic::div_mod::lemma_fundamental_div_mod(index as int, b);
            vstd::arithmetic::div_mod::lemma_mod_bound(index as int, b);
            assert(b * (index as int / b) + b <= self.segments@.len() * b) by (nonlinear_arith)
                requires
                    (index as int / b) + 1 <= self.segments@.len(),
                    0 < b,
            ;
        }
        let ghost mid = *self;
        self.next_free = index + 1;
        proof {
            assert forall|i: int| #[trigger] self.spec_block(i) == mid.spec_block(i) by {}
        }
        BlockPtr(index)
    }

    /// Takes memory for one more segment, and fills it with default blocks.
    fn extend_pool(&mut self)
        requires
            old(self).wf(),
            old(self).spec_allocated() < old(self).spec_limit(),
            (old(self).next_free as int) / (old(self).blocks_per_seg as int)
                >= old(self).segments@.len(),
        ensures
            final(self).wf(),
            final(self).next_free == old(self).next_free,
            final(self).blocks_per_seg == old(self).blocks_per_seg,
            final(self).max_segments == old(self).max_segments,
            final(self).segments@.len() == old(self).segments@.len() + 1,
            final(self).spec_len() == old(self).spec_len() + old(self).blocks_per_seg,
            (final(self).next_free as int) / (final(self).blocks_per_seg as int)
                < final(self).segments@.len(),
            forall|i: int|
                0 <= i < old(self).spec_len() ==> #[trigger] final(self).spec_block(i) == old(
                    self,
                ).spec_block(i),
            forall|i: int|
                old(self).spec_len() <= i < final(self).spec_len() ==> (
                #[trigger] final(self).spec_block(i)).is_default(),
    {
        let mut segment: Vec<Block<D, BSX, N>> = Vec::with_capacity(self.blocks_per_seg);
        let mut k: usize = 0;
        while k < self.blocks_per_seg
            invariant
                self.wf(),
                k <= self.blocks_per_seg,
                segment@.len() == k,
                forall|j: int|
                    0 <= j < k ==> (#[trigger] segment@[j]).is_default(),
            decreases self.blocks_per_seg - k,
        {
            segment.push(Block::new());
            k = k + 1;
        }
        proof {
            let b = (self.blocks_per_seg as int);
            let n = self.segments@.len() as int;
            vstd::arithmetic::div_mod::lemma_fundamental_div_mod(self.next_free as int, b);
            vstd::arithmetic::div_mod::lemma_mod_bound(self.next_free as int, b);
            assert(n * b <= b * (self.next_free as int / b)) by (nonlinear_arith)
                requires
                    n <= self.next_free as int / b,
                    0 < b,
            ;
            assert(n < self.max_segments) by (nonlinear_arith)
                requires
                    self.next_free < self.max_segments * b,
                    n * b <= b * (self.next_free as int / b) <= self.next_free,
                    0 < b,
            ;
            vstd::arithmetic::div_mod::lemma_div_multiples_vanish(n, b);
            assert((n + 1) * b == n * b + b) by (nonlinear_arith);
        }
        self.segments.push(segment);
        proof {
            let b = (self.blocks_per_seg as int);
            let n = old(self).segments@.len() as int;
            assert(self.next_free == n * b);
            assert forall|i: int| 0 <= i < old(self).spec_len() implies #[trigger] self.spec_block(i)
                == old(self).spec_block(i) by {
                old(self).lemma_slot(i);
            }
            assert forall|i: int| old(self).spec_len() <= i < self.spec_len() implies (
            #[trigger] self.spec_block(i)).is_default() by {
                self.lemma_slot(i);
                vstd::arithmetic::div_mod::lemma_fundamental_div_mod_converse(i, b, n, i - n * b);
                assert(self.spec_block(i) == segment@[i - n * b]);
            }
        }
    }

    /// Makes all slots free again. The blocks keep what they hold.
    pub fn reset(&mut self)
        requires
            old(self).wf(),
        ensures
            final(self).wf(),
            final(self).spec_allocated() == 0,
            final(self).spec_limit() == old(self).spec_limit(),
            final(self).spec_len() == old(self).spec_len(),
            forall|i: int| #[trigger] final(self).spec_block(i) == old(self).spec_block(i),
    {
        proof {
            self.lemma_wf();
        }
        self.next_free = 0;
    }

    /// The block that `ptr` is the handle of.
    pub fn block(&self, ptr: BlockPtr) -> (r: &Block<D, BSX, N>)
        requires
            self.wf(),
            ptr.0 < self.spec_allocated(),
        ensures
            *r == self.spec_block(ptr.0 as int),
    {
        proof {
            self.lemma_wf();
            self.lemma_slot(ptr.0 as int);
        }
        &self.segments[ptr.0 / self.blocks_per_seg][ptr.0 % self.blocks_per_seg]
    }

    /// The block that `ptr` is the handle of, to be changed.
    pub fn block_mut(&mut self, ptr: BlockPtr) -> (r: &mut Block<D, BSX, N>)
        requires
            old(self).wf(),
            ptr.0 < old(self).spec_allocated(),
        ensures
            *r == old(self).spec_block(ptr.0 as int),
            final(self).wf(),
            final(self).spec_allocated() == old(self).spec_allocated(),
            final(self).spec_limit() == old(self).spec_limit(),
            final(self).spec_len() == old(self).spec_len(),
            final(self).spec_block(ptr.0 as int) == *final(r),
            forall|i: int|
                0 <= i < old(self).spec_len() && i != ptr.0 ==> #[trigger] final(self).spec_block(i)
                    == old(self).spec_block(i),
    {
        proof {
            self.lemma_wf();
            self.lemma_slot(ptr.0 as int);
        }
        let s: usize = ptr.0 / self.blocks_per_seg;
        let k: usize = ptr.0 % self.blocks_per_seg;
        proof {
            let b = (self.blocks_per_seg as int);
            assert forall|i: int| 0 <= i < self.spec_len() && i != ptr.0 implies #[trigger] (i / b)
                != s || i % b != k by {
                vstd::arithmetic::div_mod::lemma_fundamental_div_mod(i, b);
                vstd::arithmetic::div_mod::lemma_fundamental_div_mod(ptr.0 as int, b);
            }
            assert forall|i: int| 0 <= i < self.spec_len() implies 0 <= #[trigger] (i / b)
                < self.segments@.len() && 0 <= i % b < b by {
                self.lemma_slot(i);
            }
        }
        let segment = &mut self.segments[s];
        &mut segment[k]
    }
}

/// A pool that has nothing handed out, new or after a reset, serves as many calls as it may have slots,
/// and hands out no slot twice: over any run of calls the slots come in order from the first on, there
/// is one more to be had exactly while the run is shorter than the limit, and the limit stays.
pub proof fn law_slots_distinct<D, const BSX: usize, const N: usize>(
    pools: Seq<BlockPool<D, BSX, N>>,
    slots: Seq<BlockPtr>,
) where D: Copy + Default + Send + Sync
    requires
        pools.len() == slots.len() + 1,
        pools[0].wf(),
        pools[0].spec_allocated() == 0,
        forall|i: int|
            #![trigger slots[i]]
            0 <= i < slots.len() ==> BlockPool::is_alloc(pools[i], pools[i + 1], slots[i]),
    ensures
        forall|i: int| 0 <= i < slots.len() ==> (#[trigger] slots[i]).0 == i,
        slots.no_duplicates(),
        slots.len() <= pools[0].spec_limit(),
        pools.last().wf(),
        pools.last().spec_limit() == pools[0].spec_limit(),
        pools.last().spec_allocated() == slots.len(),
        slots.len() < pools[0].spec_limit() ==> pools.last().spec_allocated()
            < pools.last().spec_limit(),
    decreases slots.len(),
{
    let n = slots.len() as int;
    if n == 0 {
        pools[0].lemma_wf();
    } else {
        let (before, prior) = (pools.drop_last(), slots.drop_last());
        assert forall|i: int|
            #![trigger prior[i]]
            0 <= i < prior.len() implies BlockPool::is_alloc(before[i], before[i + 1], prior[i]) by {
            assert(slots[i] == prior[i]);
        }
        law_slots_distinct(before, prior);
        assert(before.last() == pools[n - 1]);
        assert(BlockPool::is_alloc(pools[n - 1], pools[(n - 1) + 1], slots[n - 1]));
        assert forall|i: int| 0 <= i < n implies (#[trigger] slots[i]).0 == i by {
            if i < n - 1 {
                assert(prior[i] == slots[i]);
            }
        }
    }
}

/// The voxels of a block lie in memory row by row and layer by layer, x fastest.
pub proof fn law_voxels_in_rows<D, const BSX: usize, const N: usize>(
    b: &Block<D, BSX, N>,
    vx: int,
    vy: int,
    vz: int,
) where D: Copy + Default + Send + Sync
    requires
        0 <= vx < BSX,
        0 <= vy < BSX,
        0 <= vz < BSX,
    ensures
        b.voxel(vx, vy, vz) == b.data@[vx + BSX * vy + BSX * BSX * vz],
{
    crate::layout::law_coords_of_cell(vx, vy, vz, BSX as int, BSX as int, BSX as int);
}

/// A block that is filled with a value has it at every voxel.
pub proof fn law_filled_everywhere<D, const BSX: usize, const N: usize>(
    b: &Block<D, BSX, N>,
    v: D,
) where D: Copy + Default + Send + Sync
    ensures
        b.is_filled_with(v) <==> b.data@.len() == N && forall|i: int|
            0 <= i < N ==> #[trigger] b.data@[i] == v,
{
    if b.data@.len() == N && forall|i: int| 0 <= i < N ==> #[trigger] b.data@[i] == v {
        assert(b.data@ =~= Seq::new(N as nat, |i: int| v));
    }
}

} // verus!
