//! Per-block topology: block flags, cell flags and the per-block store.

use vstd::prelude::*;

verus! {

pub const CELL_SOLID: u16 = 0x0001;

pub const CELL_FIXED: u16 = 0x0002;

pub const CELL_AIR: u16 = 0x0004;

pub const CELL_AIR_BORDER: u16 = 0x0008;

pub const CELL_EMPTY_U: u16 = 0x0010;

pub const CELL_EMPTY_V: u16 = 0x0020;

pub const CELL_PARTIAL_SOLID: u16 = 0x0040;

pub const CELL_OUT_OF_DOMAIN: u16 = 0x0080;

pub const CELL_BLK_BORDER: u16 = 0x0100;

pub const CELL_COARSE_FINE: u16 = 0x0200;

pub const CELL_FINE_COARSE: u16 = 0x0400;

pub const CELL_EMPTY_C: u16 = 0x0800;

pub const CELL_VOID: u16 = 0x1000;

pub const CELL_BOUNDARY_ZONE: u16 = 0x2000;

pub const CELL_TMP_MARK_2: u16 = 0x4000;

pub const CELL_EMPTY_W: u16 = 0x8000;

/// The cell flags of an empty block: void, and empty in all components.
pub const CELL_EMPTY_VAL: u16 = 0x9830;

/// The empty cell value is the union of the void bit and the four empty bits.
pub proof fn law_cell_empty_val()
    ensures
        CELL_EMPTY_VAL == CELL_VOID | CELL_EMPTY_U | CELL_EMPTY_V | CELL_EMPTY_W | CELL_EMPTY_C,
        CELL_EMPTY_VAL & (CELL_SOLID | CELL_VOID) != 0,
{
    assert(0x9830u16 == 0x1000u16 | 0x0010u16 | 0x0020u16 | 0x8000u16 | 0x0800u16) by (bit_vector);
    assert(0x9830u16 & (0x0001u16 | 0x1000u16) != 0) by (bit_vector);
}

/// A cell is fluid when it is neither solid nor void.
pub fn cell_is_fluid(cell: u16) -> (r: bool)
    ensures
        r == (cell & CELL_SOLID == 0 && cell & CELL_VOID == 0),
{
    proof {
        assert((cell & (0x0001u16 | 0x1000u16) == 0) == (cell & 0x0001u16 == 0 && cell & 0x1000u16 == 0))
            by (bit_vector);
    }
    cell & (CELL_SOLID | CELL_VOID) == 0
}

/// The flag bits of a block.
#[derive(Clone, Copy, Debug, PartialEq, Eq, Hash, Structural)]
pub struct BlockFlags(pub u16);

impl Default for BlockFlags {
    fn default() -> (r: Self)
        ensures
            r == BlockFlags(0),
    {
        BlockFlags(0)
    }
}

impl BlockFlags {
    pub const HAS_AIR: u16 = 0x0001;

    pub const DOM_BORDER: u16 = 0x0002;

    pub const COARSE_FINE: u16 = 0x0004;

    pub const FINE_COARSE: u16 = 0x0008;

    pub const EMPTY: u16 = 0x0010;

    pub const NO_FLUID: u16 = 0x0020;

    pub const ONLY_FLUID: u16 = 0x0040;

    pub const BOUNDARY_ZONE: u16 = 0x0080;

    pub const HAS_UNDEFINED: u16 = 0x0100;

    pub const SLOW: u16 = 0x0200;

    pub const TMP_MARK: u16 = 0x0400;

    pub const FIXED: u16 = 0x0800;

    pub const EXISTS: u16 = 0x1000;

    pub const UNIFORM_EMPTY: u16 = 0x2000;

    pub const HAS_DEFINED: u16 = 0x4000;

    pub const CUTS_SOLID: u16 = 0x8000;

    /// The flags with `bit` set.
    pub open spec fn with(self, bit: u16) -> Self {
        BlockFlags(self.0 | bit)
    }

    /// The flags with `bit` cleared.
    pub open spec fn without(self, bit: u16) -> Self {
        BlockFlags(self.0 & !bit)
    }

    /// The block touches a coarser or a finer one.
    pub open spec fn on_res_border(self) -> bool {
        self.has(Self::COARSE_FINE) || self.has(Self::FINE_COARSE)
    }

    /// A bit of `bit` is set.
    pub open spec fn has(self, bit: u16) -> bool {
        self.0 & bit != 0
    }

    /// Whether a bit of `bit` is set.
    pub fn contains(self, bit: u16) -> (r: bool)
        ensures
            r == self.has(bit),
    {
        self.0 & bit != 0
    }

    /// Sets the bits of `bit`.
    pub fn set(&mut self, bit: u16)
        ensures
            *final(self) == old(self).with(bit),
    {
        self.0 = self.0 | bit;
    }

    /// Clears the bits of `bit`.
    pub fn reset(&mut self, bit: u16)
        ensures
            *final(self) == old(self).without(bit),
    {
        self.0 = self.0 & !bit;
    }

    /// Whether the block sits on a fine-coarse or coarse-fine border.
    pub fn is_res_border(self) -> (r: bool)
        ensures
            r == self.on_res_border(),
    {
        let f: u16 = self.0;
        proof {
            assert((f & (0x0004u16 | 0x0008u16) != 0) == (f & 0x0004u16 != 0 || f & 0x0008u16 != 0))
                by (bit_vector);
        }
        f & (Self::COARSE_FINE | Self::FINE_COARSE) != 0
    }
}

/// Setting a bit makes it contained, clearing it makes it not contained, and neither touches a bit
/// that is not among those named.
pub proof fn law_flag_bits(f: BlockFlags, bit: u16, other: u16)
    ensures
        bit != 0 ==> BlockFlags(f.0 | bit).has(bit),
        !BlockFlags(f.0 & !bit).has(bit),
        bit & other == 0 ==> BlockFlags(f.0 | bit).has(other) == f.has(other),
        bit & other == 0 ==> BlockFlags(f.0 & !bit).has(other) == f.has(other),
{
    let x: u16 = f.0;
    assert(bit != 0 ==> (x | bit) & bit != 0) by (bit_vector);
    assert((x & !bit) & bit == 0) by (bit_vector);
    assert(bit & other == 0 ==> ((x | bit) & other != 0) == (x & other != 0)) by (bit_vector);
    assert(bit & other == 0 ==> ((x & !bit) & other != 0) == (x & other != 0)) by (bit_vector);
}

/// Level and flags of every block.
pub struct BlockInfoStore {
    /// Resolution level of each block on the finest multigrid level. On a coarser one the level is
    /// the larger of this and the multigrid level.
    pub level0: Vec<u8>,
    /// The flags of each block, by multigrid level.
    pub flags: Vec<Vec<BlockFlags>>,
}

impl BlockInfoStore {
    /// The store has `n_levels` multigrid levels of `n_blocks` blocks.
    pub open spec fn wf(&self, n_blocks: int, n_levels: int) -> bool {
        &&& self.level0@.len() == n_blocks
        &&& self.flags@.len() == n_levels
        &&& forall|l: int| 0 <= l < n_levels ==> (#[trigger] self.flags@[l])@.len() == n_blocks
    }

    /// Every block at the coarsest level, with no flags.
    pub fn new(n_blocks: usize, n_levels: usize) -> (r: Self)
        requires
            1 <= n_levels <= 256,
        ensures
            r.wf(n_blocks as int, n_levels as int),
            r.level0@ == Seq::new(n_blocks as nat, |b: int| (n_levels - 1) as u8),
            forall|l: int|
                0 <= l < n_levels ==> (#[trigger] r.flags@[l])@ == Seq::new(
                    n_blocks as nat,
                    |b: int| BlockFlags(0),
                ),
    {
        let mut flags: Vec<Vec<BlockFlags>> = Vec::with_capacity(n_levels);
        let mut l: usize = 0;
        while l < n_levels
            invariant
                l <= n_levels,
                flags@.len() == l,
                forall|k: int|
                    0 <= k < l ==> (#[trigger] flags@[k])@ == Seq::new(
                        n_blocks as nat,
                        |b: int| BlockFlags(0),
                    ),
            decreases n_levels - l,
        {
            flags.push(crate::arith::filled(n_blocks, BlockFlags(0)));
            l = l + 1;
        }
        BlockInfoStore { level0: crate::arith::filled(n_blocks, (n_levels - 1) as u8), flags }
    }

    /// The coarser one of the level of block `bid` and multigrid level `level_mg`.
    pub open spec fn level_at(&self, bid: int, level_mg: int) -> int {
        crate::arith::max(self.level0@[bid] as int, level_mg)
    }

    /// Effective resolution level of `bid` at multigrid level `level_mg`.
    pub fn level(&self, bid: usize, level_mg: usize) -> (r: u8)
        requires
            bid < self.level0@.len(),
            level_mg <= 255,
        ensures
            r == self.level_at(bid as int, level_mg as int),
    {
        let own: usize = self.level0[bid] as usize;
        if own < level_mg {
            level_mg as u8
        } else {
            own as u8
        }
    }

    /// The flags of `bid` at multigrid level `level_mg`.
    pub fn flags(&self, bid: usize, level_mg: usize) -> (r: BlockFlags)
        requires
            level_mg < self.flags@.len(),
            bid < self.flags@[level_mg as int]@.len(),
        ensures
            r == self.flags@[level_mg as int]@[bid as int],
    {
        self.flags[level_mg][bid]
    }

    /// The flags of `bid` at multigrid level `level_mg`, to be changed.
    pub fn flags_mut(&mut self, bid: usize, level_mg: usize) -> (r: &mut BlockFlags)
        requires
            level_mg < old(self).flags@.len(),
            bid < old(self).flags@[level_mg as int]@.len(),
        ensures
            *r == old(self).flags@[level_mg as int]@[bid as int],
            final(self).level0 == old(self).level0,
            final(self).flags@.len() == old(self).flags@.len(),
            final(self).flags@[level_mg as int]@ == old(self).flags@[level_mg as int]@.update(
                bid as int,
                *final(r),
            ),
            forall|l: int|
                0 <= l < old(self).flags@.len() && l != level_mg ==> #[trigger] final(self).flags@[l]
                    == old(self).flags@[l],
    {
        let level = &mut self.flags[level_mg];
        &mut level[bid]
    }
}

/// A flag that is set is there, one that is cleared is not, and no other flag changes either way.
pub proof fn law_set_and_reset(f: BlockFlags, bit: u16, other: u16)
    ensures
        f.with(bit).0 & bit == bit,
        f.without(bit).0 & bit == 0,
        bit & other == 0 ==> f.with(bit).0 & other == f.0 & other && f.without(bit).0 & other == f.0
            & other,
        f.has(bit) <==> f.0 & bit != 0,
        f.on_res_border() <==> f.0 & 0x000c != 0,
{
    let g = f.0;
    assert((g | bit) & bit == bit && (g & !bit) & bit == 0 && (bit & other == 0 ==> (g | bit) & other == g
        & other && (g & !bit) & other == g & other) && ((g & 0x0004 != 0 || g & 0x0008 != 0) <==> g
        & 0x000c != 0)) by (bit_vector);
}

/// Going up the multigrid, a block keeps its level until the grid is as coarse, and then follows it.
pub proof fn law_effective_level(store: &BlockInfoStore, bid: int, level_mg: int)
    ensures
        level_mg <= store.level0@[bid] ==> store.level_at(bid, level_mg) == store.level0@[bid],
        store.level0@[bid] <= level_mg ==> store.level_at(bid, level_mg) == level_mg,
{
}

} // verus!
