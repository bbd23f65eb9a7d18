//! Walking the allocated blocks of a grid.

use crate::blockpool::BlockPtr;
use crate::sparse_grid::{BlockKind, SparseGrid};
use vstd::prelude::*;

verus! {

/// One block of the walk.
#[derive(Clone, Copy, Debug, PartialEq, Eq, Structural)]
pub struct BlockSimdContext {
    /// The block's id.
    pub bid: usize,
    /// Where the block's data is.
    pub data: BlockPtr,
}

/// Walks the allocated blocks of a grid by increasing id, and passes the dummies over.
pub struct BlockIterator<'a, D, const BSX: usize, const N: usize> where
    D: Copy + Default + Send + Sync,
 {
    pub grid: &'a SparseGrid<D, BSX, N>,
    pub current_bid: usize,
}

/// The allocated blocks from `from` on, by increasing id.
pub open spec fn walk<D, const BSX: usize, const N: usize>(
    grid: &SparseGrid<D, BSX, N>,
    from: int,
) -> Seq<int> where D: Copy + Default + Send + Sync
    decreases grid.n_blocks - from,
{
    if from >= grid.n_blocks {
        seq![]
    } else if grid.kind(from) is Allocated {
        seq![from] + walk(grid, from + 1)
    } else {
        walk(grid, from + 1)
    }
}

/// The walk from block 0 on has every allocated block, each once, and nothing else.
pub proof fn law_walk_visits_allocated<D, const BSX: usize, const N: usize>(
    grid: &SparseGrid<D, BSX, N>,
    b: int,
) where D: Copy + Default + Send + Sync
    ensures
        walk(grid, 0).contains(b) <==> 0 <= b < grid.n_blocks && grid.kind(b) is Allocated,
        walk(grid, 0).no_duplicates(),
{
    lemma_walk(grid, 0, b);
}

proof fn lemma_walk<D, const BSX: usize, const N: usize>(
    grid: &SparseGrid<D, BSX, N>,
    from: int,
    b: int,
) where D: Copy + Default + Send + Sync
    ensures
        walk(grid, from).contains(b) <==> from <= b < grid.n_blocks && grid.kind(b) is Allocated,
        walk(grid, from).no_duplicates(),
    decreases grid.n_blocks - from,
{
    if from < grid.n_blocks {
        let rest = walk(grid, from + 1);
        lemma_walk(grid, from + 1, b);
        lemma_walk(grid, from + 1, from);
        if grid.kind(from) is Allocated {
            let all = seq![from] + rest;
            assert(all.contains(b) <==> b == from || rest.contains(b)) by {
                assert(all[0] == from);
                if rest.contains(b) {
                    let k = choose|k: int| 0 <= k < rest.len() && rest[k] == b;
                    assert(all[k + 1] == b);
                }
                if all.contains(b) && b != from {
                    let k = choose|k: int| 0 <= k < all.len() && all[k] == b;
                    assert(rest[k - 1] == b);
                }
            }
            assert forall|i: int, j: int| 0 <= i < j < all.len() implies all[i] != all[j] by {
                assert(all[j] == rest[j - 1]);
                assert(rest.contains(all[j]));
                if i > 0 {
                    assert(all[i] == rest[i - 1]);
                }
            }
        }
    }
}

/// Blocks that are not allocated are not on the walk.
proof fn lemma_walk_skip<D, const BSX: usize, const N: usize>(
    grid: &SparseGrid<D, BSX, N>,
    from: int,
    to: int,
) where D: Copy + Default + Send + Sync
    requires
        from <= to <= grid.n_blocks,
        forall|b: int| from <= b < to ==> !(#[trigger] grid.kind(b) is Allocated),
    ensures
        walk(grid, from) == walk(grid, to),
    decreases to - from,
{
    if from < to {
        lemma_walk_skip(grid, from + 1, to);
    }
}

impl<'a, D, const BSX: usize, const N: usize> BlockIterator<'a, D, BSX, N> where
    D: Copy + Default + Send + Sync,
 {
    /// The walk from block 0 on.
    pub fn new(grid: &'a SparseGrid<D, BSX, N>) -> (r: Self)
        ensures
            r.grid == grid,
            r.current_bid == 0,
    {
        BlockIterator { grid, current_bid: 0 }
    }

    /// The next allocated block, and nothing when there is none left.
    pub fn next(&mut self) -> (r: Option<BlockSimdContext>)
        requires
            old(self).grid.wf(),
            old(self).current_bid <= old(self).grid.n_blocks,
        ensures
            final(self).grid == old(self).grid,
            final(self).current_bid <= final(self).grid.n_blocks,
            match r {
                Some(c) => {
                    &&& old(self).grid.kind(c.bid as int) == BlockKind::Allocated(c.data)
                    &&& walk(old(self).grid, old(self).current_bid as int) == seq![c.bid as int]
                        + walk(final(self).grid, final(self).current_bid as int)
                },
                None => walk(old(self).grid, old(self).current_bid as int).len() == 0 && walk(
                    final(self).grid,
                    final(self).current_bid as int,
                ).len() == 0,
            },
    {
        let grid = self.grid;
        while self.current_bid < grid.n_blocks
            invariant
                grid == old(self).grid,
                self.grid == grid,
                grid.wf(),
                old(self).current_bid <= self.current_bid <= grid.n_blocks,
                forall|b: int|
                    old(self).current_bid <= b < self.current_bid ==> !(#[trigger] grid.kind(
                        b,
                    ) is Allocated),
            decreases grid.n_blocks - self.current_bid,
        {
            let bid: usize = self.current_bid;
            self.current_bid = bid + 1;
            if let BlockKind::Allocated(data) = grid.block_kind(bid) {
                proof {
                    lemma_walk_skip(grid, old(self).current_bid as int, bid as int);
                }
                return Some(BlockSimdContext { bid, data });
            }
        }
        proof {
            lemma_walk_skip(grid, old(self).current_bid as int, grid.n_blocks as int);
        }
        None
    }
}

/// The walk goes up: of two blocks that it visits the one with the lower id comes first.
pub proof fn law_walk_goes_up<D, const BSX: usize, const N: usize>(
    grid: &SparseGrid<D, BSX, N>,
    from: int,
    i: int,
    j: int,
) where D: Copy + Default + Send + Sync
    requires
        0 <= i < j < walk(grid, from).len(),
    ensures
        from <= walk(grid, from)[i] < walk(grid, from)[j],
    decreases grid.n_blocks - from,
{
    if from < grid.n_blocks {
        let rest = walk(grid, from + 1);
        if grid.kind(from) is Allocated {
            if 0 < i {
                law_walk_goes_up(grid, from + 1, i - 1, j - 1);
            } else {
                lemma_walk_from(grid, from + 1, j - 1);
            }
        } else {
            law_walk_goes_up(grid, from + 1, i, j);
        }
    }
}

proof fn lemma_walk_from<D, const BSX: usize, const N: usize>(
    grid: &SparseGrid<D, BSX, N>,
    from: int,
    i: int,
) where D: Copy + Default + Send + Sync
    requires
        0 <= i < walk(grid, from).len(),
    ensures
        from <= walk(grid, from)[i],
    decreases grid.n_blocks - from,
{
    if from < grid.n_blocks {
        if grid.kind(from) is Allocated {
            if 0 < i {
                lemma_walk_from(grid, from + 1, i - 1);
            }
        } else {
            lemma_walk_from(grid, from + 1, i);
        }
    }
}

} // verus!
