//! Refinement maps: the 2:1 constraint, and the block topology that follows from a map.

use crate::multires::blockinfo::{BlockFlags, BlockInfoStore};
use vstd::prelude::*;

verus! {

/// The resolution level of each block, 0 being the finest.
#[derive(Clone, Debug, Default, PartialEq, Eq)]
pub struct RefinementMap {
    pub levels: Vec<u8>,
}

impl RefinementMap {
    /// The map with the given levels.
    pub fn new(levels: Vec<u8>) -> (r: Self)
        ensures
            r.levels == levels,
    {
        RefinementMap { levels }
    }

    /// A map with every block at `level`.
    pub fn uniform(n_blocks: usize, level: u8) -> (r: Self)
        ensures
            r.levels@ == Seq::new(n_blocks as nat, |b: int| level),
    {
        RefinementMap { levels: crate::arith::filled(n_blocks, level) }
    }
}

/// Sizes of the block grid, the same on all resolution levels.
#[derive(Clone, Copy, Debug)]
pub struct BlockGridDims {
    pub nx: usize,
    pub ny: usize,
    pub nz: usize,
    pub nxy: usize,
    pub n_blocks: usize,
}

impl BlockGridDims {
    /// The products agree with the sizes.
    pub open spec fn wf(&self) -> bool {
        &&& self.nxy == self.nx * self.ny
        &&& self.n_blocks == self.nx * self.ny * self.nz
    }

    /// The block coordinates of `bid`.
    pub open spec fn x_of(&self, bid: int) -> int {
        crate::layout::coord_x(bid, self.nx as int)
    }

    pub open spec fn y_of(&self, bid: int) -> int {
        crate::layout::coord_y(bid, self.nx as int, self.ny as int)
    }

    pub open spec fn z_of(&self, bid: int) -> int {
        crate::layout::coord_z(bid, self.nx as int, self.ny as int)
    }

    /// The id of the block at the given coordinates.
    pub open spec fn id_at(&self, bx: int, by: int, bz: int) -> int {
        crate::layout::index3(bx, by, bz, self.nx as int, self.ny as int)
    }

    /// The coordinates are those of a block.
    pub open spec fn has_block(&self, bx: int, by: int, bz: int) -> bool {
        crate::layout::in_box(bx, by, bz, self.nx as int, self.ny as int, self.nz as int)
    }

    /// `a` and `b` are two different blocks that touch at a face, an edge or a corner.
    pub open spec fn adjacent(&self, a: int, b: int) -> bool {
        &&& 0 <= a < self.n_blocks
        &&& 0 <= b < self.n_blocks
        &&& a != b
        &&& -1 <= self.x_of(a) - self.x_of(b) <= 1
        &&& -1 <= self.y_of(a) - self.y_of(b) <= 1
        &&& -1 <= self.z_of(a) - self.z_of(b) <= 1
    }

    /// The coordinates of a block are in range and give its id back.
    pub proof fn lemma_coords(&self, bid: int)
        requires
            self.wf(),
            0 <= bid < self.n_blocks,
        ensures
            self.has_block(self.x_of(bid), self.y_of(bid), self.z_of(bid)),
            self.id_at(self.x_of(bid), self.y_of(bid), self.z_of(bid)) == bid,
    {
        crate::layout::lemma_coords3(bid, self.nx as int, self.ny as int, self.nz as int);
    }

    /// The id of a block is in range and gives its coordinates back.
    pub proof fn lemma_id(&self, bx: int, by: int, bz: int)
        requires
            self.wf(),
            self.has_block(bx, by, bz),
        ensures
            0 <= self.id_at(bx, by, bz) < self.n_blocks,
            self.x_of(self.id_at(bx, by, bz)) == bx,
            self.y_of(self.id_at(bx, by, bz)) == by,
            self.z_of(self.id_at(bx, by, bz)) == bz,
            0 <= by * self.nx,
            0 <= bz * self.nxy,
            0 < self.nxy,
    {
        crate::layout::lemma_index3(bx, by, bz, self.nx as int, self.ny as int, self.nz as int);
    }

    /// Sizes of a grid of `nx * ny * nz` blocks.
    pub fn new(nx: usize, ny: usize, nz: usize) -> (r: Self)
        requires
            nx * ny <= usize::MAX,
            nx * ny * nz <= usize::MAX,
        ensures
            r.wf(),
            r.nx == nx,
            r.ny == ny,
            r.nz == nz,
    {
        BlockGridDims { nx, ny, nz, nxy: nx * ny, n_blocks: nx * ny * nz }
    }

    /// The block coordinates of `bid`.
    pub fn coords(&self, bid: usize) -> (r: (usize, usize, usize))
        requires
            self.wf(),
            bid < self.n_blocks,
        ensures
            r.0 == self.x_of(bid as int),
            r.1 == self.y_of(bid as int),
            r.2 == self.z_of(bid as int),
            self.has_block(r.0 as int, r.1 as int, r.2 as int),
            self.id_at(r.0 as int, r.1 as int, r.2 as int) == bid,
    {
        proof {
            self.lemma_coords(bid as int);
            self.lemma_id(self.x_of(bid as int), self.y_of(bid as int), self.z_of(bid as int));
        }
        (bid % self.nx, (bid / self.nx) % self.ny, bid / self.nxy)
    }

    /// Whether the coordinates are those of a block.
    pub fn in_range(&self, bx: i32, by: i32, bz: i32) -> (r: bool)
        ensures
            r == self.has_block(bx as int, by as int, bz as int),
    {
        bx >= 0 && (bx as usize) < self.nx && by >= 0 && (by as usize) < self.ny && bz >= 0 && (
        bz as usize) < self.nz
    }

    /// The id of the block at the given coordinates.
    pub fn id(&self, bx: usize, by: usize, bz: usize) -> (r: usize)
        requires
            self.wf(),
            self.has_block(bx as int, by as int, bz as int),
        ensures
            r == self.id_at(bx as int, by as int, bz as int),
            r < self.n_blocks,
    {
        proof {
            self.lemma_id(bx as int, by as int, bz as int);
        }
        bx + by * self.nx + bz * self.nxy
    }

    /// The blocks that touch `bid`, each once.
    pub fn neighbors(&self, bid: usize) -> (r: Vec<usize>)
        requires
            self.wf(),
            bid < self.n_blocks,
        ensures
            forall|i: int| 0 <= i < r@.len() ==> self.adjacent(bid as int, #[trigger] r@[i] as int),
            forall|b: int|
                #![trigger self.adjacent(bid as int, b)]
                self.adjacent(bid as int, b) ==> r@.contains(b as usize),
            r@.no_duplicates(),
    {
        let (bx, by, bz) = self.coords(bid);
        let x0: usize = if bx > 0 { bx - 1 } else { 0 };
        let y0: usize = if by > 0 { by - 1 } else { 0 };
        let z0: usize = if bz > 0 { bz - 1 } else { 0 };
        let x1: usize = if bx + 1 < self.nx { bx + 1 } else { bx };
        let y1: usize = if by + 1 < self.ny { by + 1 } else { by };
        let z1: usize = if bz + 1 < self.nz { bz + 1 } else { bz };
        let mut r: Vec<usize> = Vec::with_capacity(26);
        let mut z: usize = z0;
        proof {
            assert forall|b: int|
                #![trigger self.adjacent(bid as int, b)]
                self.adjacent(bid as int, b) implies self.z_of(b) >= z0 by {
                self.lemma_coords(b);
            }
        }
        while z <= z1
            invariant
                self.wf(),
                bid < self.n_blocks,
                bx == self.x_of(bid as int),
                by == self.y_of(bid as int),
                bz == self.z_of(bid as int),
                self.has_block(bx as int, by as int, bz as int),
                self.id_at(bx as int, by as int, bz as int) == bid,
                x0 <= bx <= x1 < self.nx,
                y0 <= by <= y1 < self.ny,
                z0 <= bz <= z1 < self.nz,
                bx <= x0 + 1,
                by <= y0 + 1,
                bz <= z0 + 1,
                x1 <= bx + 1,
                y1 <= by + 1,
                z1 <= bz + 1,
                x0 == crate::arith::max(bx - 1, 0),
                y0 == crate::arith::max(by - 1, 0),
                z0 == crate::arith::max(bz - 1, 0),
                x1 == crate::arith::min(bx + 1, self.nx - 1),
                y1 == crate::arith::min(by + 1, self.ny - 1),
                z1 == crate::arith::min(bz + 1, self.nz - 1),
                z0 <= z <= z1 + 1,
                forall|i: int|
                    0 <= i < r@.len() ==> self.adjacent(bid as int, #[trigger] r@[i] as int),
                forall|b: int|
                    #![trigger self.adjacent(bid as int, b)]
                    self.adjacent(bid as int, b) && self.z_of(b) < z ==> r@.contains(b as usize),
                forall|i: int| 0 <= i < r@.len() ==> self.z_of(#[trigger] r@[i] as int) < z,
                r@.no_duplicates(),
            decreases z1 + 1 - z,
        {
            let mut y: usize = y0;
            while y <= y1
                invariant
                    self.wf(),
                    bid < self.n_blocks,
                    bx == self.x_of(bid as int),
                    by == self.y_of(bid as int),
                    bz == self.z_of(bid as int),
                    self.has_block(bx as int, by as int, bz as int),
                    self.id_at(bx as int, by as int, bz as int) == bid,
                    x0 <= bx <= x1 < self.nx,
                    y0 <= by <= y1 < self.ny,
                    z0 <= bz <= z1 < self.nz,
                    bx <= x0 + 1,
                    by <= y0 + 1,
                    bz <= z0 + 1,
                    x1 <= bx + 1,
                    y1 <= by + 1,
                    z1 <= bz + 1,
                    x0 == crate::arith::max(bx - 1, 0),
                    y0 == crate::arith::max(by - 1, 0),
                    x1 == crate::arith::min(bx + 1, self.nx - 1),
                    y1 == crate::arith::min(by + 1, self.ny - 1),
                    z0 <= z <= z1,
                    y0 <= y <= y1 + 1,
                    forall|i: int|
                        0 <= i < r@.len() ==> self.adjacent(bid as int, #[trigger] r@[i] as int),
                    forall|b: int|
                        #![trigger self.adjacent(bid as int, b)]
                        self.adjacent(bid as int, b) && (self.z_of(b) < z || (self.z_of(b) == z
                            && self.y_of(b) < y)) ==> r@.contains(b as usize),
                    forall|i: int|
                        0 <= i < r@.len() ==> self.z_of(#[trigger] r@[i] as int) < z || (self.z_of(
                            r@[i] as int,
                        ) == z && self.y_of(r@[i] as int) < y),
                    r@.no_duplicates(),
                decreases y1 + 1 - y,
            {
                let mut x: usize = x0;
                while x <= x1
                    invariant
                        self.wf(),
                        bid < self.n_blocks,
                        bx == self.x_of(bid as int),
                        by == self.y_of(bid as int),
                        bz == self.z_of(bid as int),
                        self.has_block(bx as int, by as int, bz as int),
                        self.id_at(bx as int, by as int, bz as int) == bid,
                        x0 <= bx <= x1 < self.nx,
                        y0 <= by <= y1 < self.ny,
                        z0 <= bz <= z1 < self.nz,
                        bx <= x0 + 1,
                        by <= y0 + 1,
                        bz <= z0 + 1,
                        x1 <= bx + 1,
                        y1 <= by + 1,
                        z1 <= bz + 1,
                        x0 == crate::arith::max(bx - 1, 0),
                        x1 == crate::arith::min(bx + 1, self.nx - 1),
                        z0 <= z <= z1,
                        y0 <= y <= y1,
                        x0 <= x <= x1 + 1,
                        forall|i: int|
                            0 <= i < r@.len() ==> self.adjacent(
                                bid as int,
                                #[trigger] r@[i] as int,
                            ),
                        forall|b: int|
                            #![trigger self.adjacent(bid as int, b)]
                            self.adjacent(bid as int, b) && (self.z_of(b) < z || (self.z_of(b) == z
                                && (self.y_of(b) < y || (self.y_of(b) == y && self.x_of(b) < x))))
                                ==> r@.contains(b as usize),
                        forall|i: int|
                            0 <= i < r@.len() ==> self.z_of(#[trigger] r@[i] as int) < z || (
                            self.z_of(r@[i] as int) == z && (self.y_of(r@[i] as int) < y || (
                            self.y_of(r@[i] as int) == y && self.x_of(r@[i] as int) < x))),
                        r@.no_duplicates(),
                    decreases x1 + 1 - x,
                {
                    let ghost before = r@;
                    let id: usize = self.id(x, y, z);
                    proof {
                        self.lemma_id(x as int, y as int, z as int);
                    }
                    if id != bid {
                        r.push(id);
                    }
                    proof {
                        assert forall|b: int|
                            #![trigger self.adjacent(bid as int, b)]
                            self.adjacent(bid as int, b) && (self.z_of(b) < z || (self.z_of(b) == z
                                && (self.y_of(b) < y || (self.y_of(b) == y && self.x_of(b) < x
                                + 1)))) implies r@.contains(b as usize) by {
                            self.lemma_coords(b);
                            if before.contains(b as usize) {
                                let i = choose|i: int| 0 <= i < before.len() && before[i] == b as usize;
                                assert(r@[i] == b as usize);
                            } else {
                                assert(b == id);
                                assert(r@[r@.len() - 1] == b as usize);
                            }
                        }
                    }
                    x = x + 1;
                }
                proof {
                    assert forall|b: int|
                        #![trigger self.adjacent(bid as int, b)]
                        self.adjacent(bid as int, b) implies self.x_of(b) < x by {
                        self.lemma_coords(b);
                    }
                }
                y = y + 1;
            }
            proof {
                assert forall|b: int|
                    #![trigger self.adjacent(bid as int, b)]
                    self.adjacent(bid as int, b) implies self.y_of(b) < y by {
                    self.lemma_coords(b);
                }
            }
            z = z + 1;
        }
        proof {
            assert forall|b: int|
                #![trigger self.adjacent(bid as int, b)]
                self.adjacent(bid as int, b) implies self.z_of(b) < z by {
                self.lemma_coords(b);
            }
        }
        r
    }
}

/// Neighbouring blocks differ by at most one level.
pub open spec fn two_to_one(levels: Seq<u8>, dims: BlockGridDims) -> bool {
    forall|a: int, b: int|
        #![trigger dims.adjacent(a, b)]
        dims.adjacent(a, b) ==> levels[a] <= levels[b] + 1
}

/// No level of `a` is above that of `b`.
pub open spec fn no_coarser(a: Seq<u8>, b: Seq<u8>) -> bool {
    a.len() == b.len() && forall|i: int| 0 <= i < a.len() ==> #[trigger] a[i] <= b[i]
}

/// The level of `bid` after pass `ll`: a block at `ll` or coarser comes down to `ll` when the finest
/// of its neighbours is at `ll - 1`.
pub open spec fn relaxed_level(levels: Seq<u8>, dims: BlockGridDims, ll: int, bid: int) -> int {
    if levels[bid] >= ll && (exists|b: int| #[trigger]
        dims.adjacent(bid, b) && levels[b] == ll - 1) && (forall|b: int| #[trigger]
        dims.adjacent(bid, b) ==> levels[b] >= ll - 1) {
        ll
    } else {
        levels[bid] as int
    }
}

/// The map after passes `1` to `k`.
pub open spec fn relaxed(levels: Seq<u8>, dims: BlockGridDims, k: int) -> Seq<u8>
    decreases k,
{
    if k <= 0 {
        levels
    } else {
        Seq::new(
            levels.len(),
            |bid: int| relaxed_level(relaxed(levels, dims, k - 1), dims, k, bid) as u8,
        )
    }
}

/// The regularized map: one pass for each level but the finest and the coarsest.
pub open spec fn regularized(levels: Seq<u8>, dims: BlockGridDims, n_levels: int) -> Seq<u8> {
    relaxed(levels, dims, n_levels - 2)
}

/// The finest level among the neighbours of `bid`, or `init` where that is finer.
fn finest_neighbor(levels: &Vec<u8>, dims: &BlockGridDims, bid: usize, init: u8) -> (r: u8)
    requires
        dims.wf(),
        bid < dims.n_blocks,
        levels@.len() == dims.n_blocks,
    ensures
        r <= init,
        forall|b: int| #[trigger] dims.adjacent(bid as int, b) ==> r <= levels@[b],
        r == init || exists|b: int| #[trigger] dims.adjacent(bid as int, b) && levels@[b] == r,
{
    let ids: Vec<usize> = dims.neighbors(bid);
    let mut r: u8 = init;
    let mut i: usize = 0;
    while i < ids.len()
        invariant
            i <= ids@.len(),
            levels@.len() == dims.n_blocks,
            forall|k: int|
                0 <= k < ids@.len() ==> dims.adjacent(bid as int, #[trigger] ids@[k] as int),
            r <= init,
            forall|k: int| 0 <= k < i ==> r <= levels@[#[trigger] ids@[k] as int],
            r == init || exists|b: int| #[trigger] dims.adjacent(bid as int, b) && levels@[b] == r,
        decreases ids@.len() - i,
    {
        assert(dims.adjacent(bid as int, ids@[i as int] as int));
        let level: u8 = levels[ids[i]];
        if level < r {
            r = level;
        }
        i = i + 1;
    }
    proof {
        assert forall|b: int| #[trigger] dims.adjacent(bid as int, b) implies r <= levels@[b] by {
            assert(ids@.contains(b as usize));
            let k = choose|k: int| 0 <= k < ids@.len() && ids@[k] == b as usize;
            assert(ids@[k] as int == b);
        }
    }
    r
}

/// The coarsest level among the neighbours of `bid`, or 0 where there is none.
fn coarsest_neighbor(levels: &Vec<u8>, dims: &BlockGridDims, bid: usize) -> (r: u8)
    requires
        dims.wf(),
        bid < dims.n_blocks,
        levels@.len() == dims.n_blocks,
    ensures
        forall|b: int| #[trigger] dims.adjacent(bid as int, b) ==> r >= levels@[b],
        r == 0 || exists|b: int| #[trigger] dims.adjacent(bid as int, b) && levels@[b] == r,
{
    let ids: Vec<usize> = dims.neighbors(bid);
    let mut r: u8 = 0;
    let mut i: usize = 0;
    while i < ids.len()
        invariant
            i <= ids@.len(),
            levels@.len() == dims.n_blocks,
            forall|k: int|
                0 <= k < ids@.len() ==> dims.adjacent(bid as int, #[trigger] ids@[k] as int),
            forall|k: int| 0 <= k < i ==> r >= levels@[#[trigger] ids@[k] as int],
            r == 0 || exists|b: int| #[trigger] dims.adjacent(bid as int, b) && levels@[b] == r,
        decreases ids@.len() - i,
    {
        assert(dims.adjacent(bid as int, ids@[i as int] as int));
        let level: u8 = levels[ids[i]];
        if level > r {
            r = level;
        }
        i = i + 1;
    }
    proof {
        assert forall|b: int| #[trigger] dims.adjacent(bid as int, b) implies r >= levels@[b] by {
            assert(ids@.contains(b as usize));
            let k = choose|k: int| 0 <= k < ids@.len() && ids@[k] == b as usize;
            assert(ids@[k] as int == b);
        }
    }
    r
}

/// The level of `bid` after pass `ll`.
fn relax_level(levels: &Vec<u8>, dims: &BlockGridDims, n_levels: usize, ll: u8, bid: usize) -> (r: u8)
    requires
        dims.wf(),
        bid < dims.n_blocks,
        levels@.len() == dims.n_blocks,
        1 <= ll <= n_levels - 2,
        n_levels <= 256,
    ensures
        r == relaxed_level(levels@, *dims, ll as int, bid as int),
{
    let level: u8 = levels[bid];
    if level >= ll {
        let finest: u8 = finest_neighbor(levels, dims, bid, (n_levels - 1) as u8);
        if finest == ll - 1 {
            return ll;
        }
    }
    level
}

/// Enforces the 2:1 constraint: neighbouring blocks may not differ by more than one level. Blocks are
/// made finer where that is needed, and no block is made coarser.
pub fn regularize_refinement_map(map: &mut Vec<u8>, dims: &BlockGridDims, n_levels: usize)
    requires
        dims.wf(),
        old(map)@.len() == dims.n_blocks,
        n_levels <= 256,
    ensures
        final(map)@ == regularized(old(map)@, *dims, n_levels as int),
{
    if n_levels <= 2 {
        return;
    }
    let last: usize = n_levels - 2;
    let mut ll: usize = 1;
    while ll <= last
        invariant
            dims.wf(),
            map@.len() == dims.n_blocks,
            n_levels <= 256,
            last == n_levels - 2,
            1 <= ll <= last + 1,
            map@ == relaxed(old(map)@, *dims, ll - 1),
            old(map)@.len() == dims.n_blocks,
        decreases last + 1 - ll,
    {
        let prev: &Vec<u8> = &*map;
        let pass: u8 = ll as u8;
        let relax = |bid: usize| -> (r: u8)
            requires
                dims.wf(),
                bid < dims.n_blocks,
                prev@.len() == dims.n_blocks,
                1 <= pass <= n_levels - 2,
                n_levels <= 256,
            ensures
                r == relaxed_level(prev@, *dims, pass as int, bid as int),
        { relax_level(prev, dims, n_levels, pass, bid) };
        let next: Vec<u8> = crate::par::map_index(dims.n_blocks, relax);
        proof {
            assert(next@ =~= relaxed(old(map)@, *dims, ll as int)) by {
                assert forall|bid: int| 0 <= bid < dims.n_blocks implies next@[bid] == relaxed_level(
                    prev@,
                    *dims,
                    ll as int,
                    bid,
                ) as u8 by {
                    assert(next@[(bid as usize) as int] == next@[bid]);
                }
            }
        }
        *map = next;
        ll = ll + 1;
    }
}

/// After passes `1` to `k`, the constraint holds around all blocks finer than `k`.
spec fn fine_part_ok(levels: Seq<u8>, dims: BlockGridDims, k: int) -> bool {
    forall|a: int, b: int|
        #![trigger dims.adjacent(a, b)]
        dims.adjacent(a, b) && levels[b] < k ==> levels[a] <= levels[b] + 1
}

proof fn lemma_relaxed_step(levels: Seq<u8>, dims: BlockGridDims, k: int)
    requires
        dims.wf(),
        levels.len() == dims.n_blocks,
        0 <= k <= 255,
    ensures
        relaxed(levels, dims, k).len() == levels.len(),
        no_coarser(relaxed(levels, dims, k), levels),
        fine_part_ok(relaxed(levels, dims, k), dims, k),
    decreases k,
{
    if k > 0 {
        lemma_relaxed_step(levels, dims, k - 1);
        let prev = relaxed(levels, dims, k - 1);
        let next = relaxed(levels, dims, k);
        assert forall|i: int| 0 <= i < levels.len() implies #[trigger] next[i] <= levels[i] by {
            assert(next[i] == relaxed_level(prev, dims, k, i) as u8);
            assert(prev[i] <= levels[i]);
        }
        assert forall|a: int, b: int|
            #![trigger dims.adjacent(a, b)]
            dims.adjacent(a, b) && next[b] < k implies next[a] <= next[b] + 1 by {
            assert(next[a] == relaxed_level(prev, dims, k, a) as u8);
            assert(next[b] == relaxed_level(prev, dims, k, b) as u8);
            assert(next[b] == prev[b]);
            if prev[b] < k - 1 {
                assert(prev[a] <= prev[b] + 1);
            } else if prev[a] >= k {
                assert forall|c: int| #[trigger] dims.adjacent(a, c) implies prev[c] >= k - 1 by {
                    if prev[c] < k - 1 {
                        assert(prev[a] <= prev[c] + 1);
                    }
                }
                assert(relaxed_level(prev, dims, k, a) == k);
            }
        }
    }
}

proof fn lemma_relaxed_above(levels: Seq<u8>, dims: BlockGridDims, k: int, m: Seq<u8>)
    requires
        dims.wf(),
        levels.len() == dims.n_blocks,
        0 <= k <= 255,
        two_to_one(m, dims),
        no_coarser(m, levels),
    ensures
        no_coarser(m, relaxed(levels, dims, k)),
    decreases k,
{
    if k > 0 {
        lemma_relaxed_above(levels, dims, k - 1, m);
        let prev = relaxed(levels, dims, k - 1);
        let next = relaxed(levels, dims, k);
        assert forall|i: int| 0 <= i < m.len() implies #[trigger] m[i] <= next[i] by {
            assert(m[i] <= prev[i]);
            assert(next[i] == relaxed_level(prev, dims, k, i) as u8);
            if relaxed_level(prev, dims, k, i) != prev[i] {
                let b = choose|b: int| #[trigger] dims.adjacent(i, b) && prev[b] == k - 1;
                assert(m[b] <= prev[b]);
                assert(m[i] <= m[b] + 1);
            }
        }
    }
}

/// Regularization gives the coarsest map that satisfies the 2:1 constraint and has no block coarser
/// than the given map has it.
pub proof fn law_regularized_is_coarsest(levels: Seq<u8>, dims: BlockGridDims, n_levels: int)
    requires
        dims.wf(),
        levels.len() == dims.n_blocks,
        1 <= n_levels <= 256,
        forall|i: int| 0 <= i < levels.len() ==> #[trigger] levels[i] < n_levels,
    ensures
        two_to_one(regularized(levels, dims, n_levels), dims),
        no_coarser(regularized(levels, dims, n_levels), levels),
        forall|m: Seq<u8>|
            #![trigger no_coarser(m, levels)]
            two_to_one(m, dims) && no_coarser(m, levels) ==> no_coarser(
                m,
                regularized(levels, dims, n_levels),
            ),
{
    let k = n_levels - 2;
    let r = regularized(levels, dims, n_levels);
    if k > 0 {
        lemma_relaxed_step(levels, dims, k);
        assert forall|m: Seq<u8>|
            #![trigger no_coarser(m, levels)]
            two_to_one(m, dims) && no_coarser(m, levels) implies no_coarser(m, r) by {
            lemma_relaxed_above(levels, dims, k, m);
        }
    }
    assert forall|a: int, b: int|
        #![trigger dims.adjacent(a, b)]
        dims.adjacent(a, b) implies r[a] <= r[b] + 1 by {
        assert(r[a] <= levels[a]);
        assert(levels[a] < n_levels);
    }
}

/// Regularization leaves a map that satisfies the 2:1 constraint as it is.
pub proof fn law_regularized_fixes_two_to_one(levels: Seq<u8>, dims: BlockGridDims, n_levels: int)
    requires
        dims.wf(),
        levels.len() == dims.n_blocks,
        1 <= n_levels <= 256,
        forall|i: int| 0 <= i < levels.len() ==> #[trigger] levels[i] < n_levels,
        two_to_one(levels, dims),
    ensures
        regularized(levels, dims, n_levels) == levels,
{
    law_regularized_is_coarsest(levels, dims, n_levels);
    let r = regularized(levels, dims, n_levels);
    assert(no_coarser(levels, levels));
    assert forall|i: int| 0 <= i < levels.len() implies r[i] == levels[i] by {
        assert(r[i] <= levels[i] && levels[i] <= r[i]);
    }
    assert(r =~= levels);
}

/// Regularizing twice is the same as once.
pub proof fn law_regularized_idempotent(levels: Seq<u8>, dims: BlockGridDims, n_levels: int)
    requires
        dims.wf(),
        levels.len() == dims.n_blocks,
        1 <= n_levels <= 256,
        forall|i: int| 0 <= i < levels.len() ==> #[trigger] levels[i] < n_levels,
    ensures
        regularized(regularized(levels, dims, n_levels), dims, n_levels) == regularized(
            levels,
            dims,
            n_levels,
        ),
{
    law_regularized_is_coarsest(levels, dims, n_levels);
    let r = regularized(levels, dims, n_levels);
    assert forall|i: int| 0 <= i < r.len() implies #[trigger] r[i] < n_levels by {
        assert(r[i] <= levels[i]);
        assert(levels[i] < n_levels);
    }
    law_regularized_fixes_two_to_one(r, dims, n_levels);
}

/// Block lists that come with a block topology.
#[derive(Debug, Default, Clone)]
pub struct Topology {
    /// The blocks with the fine-coarse flag, by resolution level.
    pub blocks_fine_coarse: Vec<Vec<usize>>,
    /// Number of blocks with the exists flag.
    pub n_act_blocks: u64,
}

/// The block is at the border of the domain.
pub open spec fn on_border(dims: BlockGridDims, bid: int) -> bool {
    ||| dims.x_of(bid) == 0
    ||| dims.x_of(bid) == dims.nx - 1
    ||| dims.y_of(bid) == 0
    ||| dims.y_of(bid) == dims.ny - 1
    ||| dims.z_of(bid) == 0
    ||| dims.z_of(bid) == dims.nz - 1
}

/// A neighbour of `bid` is coarser than `bid`.
pub open spec fn touches_coarser(levels: Seq<u8>, dims: BlockGridDims, bid: int) -> bool {
    exists|b: int| #[trigger] dims.adjacent(bid, b) && levels[b] > levels[bid]
}

/// A neighbour of `bid` is finer than `bid`.
pub open spec fn touches_finer(levels: Seq<u8>, dims: BlockGridDims, bid: int) -> bool {
    exists|b: int| #[trigger] dims.adjacent(bid, b) && levels[b] < levels[bid]
}

/// `bits` with `bit` set if `on`.
pub open spec fn with_bit(bits: u16, on: bool, bit: u16) -> u16 {
    if on { bits | bit } else { bits }
}

/// The flags the caller gave for `bid`, or none.
pub open spec fn given_flags(block_flags: Option<Seq<BlockFlags>>, bid: int) -> u16 {
    match block_flags {
        Some(f) => f[bid].0,
        None => 0,
    }
}

/// The flags of `bid`: those given, and those for the domain border and for finer and coarser
/// neighbours.
pub open spec fn topology_flags(
    levels: Seq<u8>,
    dims: BlockGridDims,
    block_flags: Option<Seq<BlockFlags>>,
    bid: int,
) -> BlockFlags {
    let f0 = given_flags(block_flags, bid);
    let f1 = with_bit(f0, on_border(dims, bid), BlockFlags::DOM_BORDER);
    let f2 = with_bit(f1, touches_coarser(levels, dims, bid), BlockFlags::FINE_COARSE);
    BlockFlags(with_bit(f2, touches_finer(levels, dims, bid), BlockFlags::COARSE_FINE))
}

/// The ids below `n` of blocks at `level` with the fine-coarse flag, in order.
pub open spec fn fine_coarse_ids(
    levels: Seq<u8>,
    flags: Seq<BlockFlags>,
    level: int,
    n: int,
) -> Seq<usize>
    decreases n,
{
    if n <= 0 {
        seq![]
    } else {
        let rest = fine_coarse_ids(levels, flags, level, n - 1);
        if levels[n - 1] == level && flags[n - 1].has(BlockFlags::FINE_COARSE) {
            rest.push((n - 1) as usize)
        } else {
            rest
        }
    }
}

/// How many of the first `n` blocks have the exists flag.
pub open spec fn count_existing(flags: Seq<BlockFlags>, n: int) -> int
    decreases n,
{
    if n <= 0 {
        0
    } else {
        count_existing(flags, n - 1) + if flags[n - 1].has(BlockFlags::EXISTS) { 1int } else { 0 }
    }
}

fn block_topology(
    map: &RefinementMap,
    dims: &BlockGridDims,
    n_levels: usize,
    block_flags: Option<&Vec<BlockFlags>>,
    bid: usize,
) -> (r: BlockFlags)
    requires
        dims.wf(),
        bid < dims.n_blocks,
        map.levels@.len() == dims.n_blocks,
        1 <= n_levels <= 256,
        map.levels@[bid as int] < n_levels,
        block_flags matches Some(f) ==> f@.len() == dims.n_blocks,
    ensures
        r == topology_flags(
            map.levels@,
            *dims,
            (match block_flags {
                Some(f) => Some(f@),
                None => None,
            }),
            bid as int,
        ),
{
    let level: u8 = map.levels[bid];
    let mut flags = match block_flags {
        Some(f) => f[bid],
        None => BlockFlags(0),
    };
    let (bx, by, bz) = dims.coords(bid);
    if bx == 0 || bx == dims.nx - 1 || by == 0 || by == dims.ny - 1 || bz == 0 || bz == dims.nz - 1 {
        flags.set(BlockFlags::DOM_BORDER);
    }
    let level2_max: u8 = coarsest_neighbor(&map.levels, dims, bid);
    let level2_min: u8 = finest_neighbor(&map.levels, dims, bid, (n_levels - 1) as u8);
    if level2_max > level {
        flags.set(BlockFlags::FINE_COARSE);
    }
    if level2_min < level {
        flags.set(BlockFlags::COARSE_FINE);
    }
    flags
}

/// `after` is `before` with the levels and the flags of the blocks, and `r` lists the blocks on the
/// fine side of a resolution border, by their level, and counts those that exist.
pub open spec fn is_topology(
    before: BlockInfoStore,
    after: BlockInfoStore,
    map: &RefinementMap,
    dims: BlockGridDims,
    n_levels: int,
    given: Option<Seq<BlockFlags>>,
    r: &Topology,
) -> bool {
    &&& after.level0@ == map.levels@
    &&& after.flags@.len() == before.flags@.len()
    &&& after.flags@[0]@ == Seq::new(
        dims.n_blocks as nat,
        |b: int| topology_flags(map.levels@, dims, given, b),
    )
    &&& forall|l: int|
        1 <= l < before.flags@.len() ==> #[trigger] after.flags@[l] == before.flags@[l]
    &&& r.blocks_fine_coarse@.len() == n_levels
    &&& forall|l: int|
        0 <= l < n_levels ==> (#[trigger] r.blocks_fine_coarse@[l])@ == fine_coarse_ids(
            map.levels@,
            after.flags@[0]@,
            l,
            dims.n_blocks as int,
        )
    &&& r.n_act_blocks == count_existing(after.flags@[0]@, dims.n_blocks as int)
}

/// Computes level and flags of every block, writes them to `store` as those of the finest multigrid
/// level, and lists the blocks on the fine side of a resolution border. `block_flags` are flags that
/// the blocks have from elsewhere.
pub fn compute_block_topology(
    store: &mut BlockInfoStore,
    map: &RefinementMap,
    dims: &BlockGridDims,
    n_levels: usize,
    block_flags: Option<&Vec<BlockFlags>>,
) -> (r: Topology)
    requires
        dims.wf(),
        1 <= n_levels <= 256,
        map.levels@.len() == dims.n_blocks,
        forall|b: int| 0 <= b < dims.n_blocks ==> #[trigger] map.levels@[b] < n_levels,
        block_flags matches Some(f) ==> f@.len() == dims.n_blocks,
        old(store).level0@.len() == dims.n_blocks,
        old(store).flags@.len() >= 1,
        old(store).flags@[0]@.len() == dims.n_blocks,
    ensures
        is_topology(
            *old(store),
            *final(store),
            map,
            *dims,
            n_levels as int,
            (match block_flags {
                Some(f) => Some(f@),
                None => None,
            }),
            &r,
        ),
{
    let topology = |bid: usize| -> (r: BlockFlags)
        requires
            dims.wf(),
            bid < dims.n_blocks,
            map.levels@.len() == dims.n_blocks,
            1 <= n_levels <= 256,
            map.levels@[bid as int] < n_levels,
            block_flags matches Some(f) ==> f@.len() == dims.n_blocks,
        ensures
            r == topology_flags(
                map.levels@,
                *dims,
                (match block_flags {
                    Some(f) => Some(f@),
                    None => None,
                }),
                bid as int,
            ),
    { block_topology(map, dims, n_levels, block_flags, bid) };
    let results: Vec<BlockFlags> = crate::par::map_index(dims.n_blocks, topology);
    let ghost given = match block_flags {
        Some(f) => Some(f@),
        None => None,
    };
    proof {
        assert forall|b: int| 0 <= b < dims.n_blocks implies results@[b] == topology_flags(
            map.levels@,
            *dims,
            given,
            b,
        ) by {
            assert(results@[(b as usize) as int] == results@[b]);
        }
    }
    let mut block_lists: Vec<Vec<usize>> = Vec::with_capacity(n_levels);
    let mut l: usize = 0;
    while l < n_levels
        invariant
            l <= n_levels,
            block_lists@.len() == l,
            forall|k: int| 0 <= k < l ==> (#[trigger] block_lists@[k])@ == Seq::<usize>::empty(),
        decreases n_levels - l,
    {
        block_lists.push(Vec::new());
        l = l + 1;
    }
    let mut n_act: u64 = 0;
    let mut bid: usize = 0;
    while bid < dims.n_blocks
        invariant
            bid <= dims.n_blocks,
            map.levels@.len() == dims.n_blocks,
            forall|b: int| 0 <= b < dims.n_blocks ==> #[trigger] map.levels@[b] < n_levels,
            results@.len() == dims.n_blocks,
            store.level0@.len() == dims.n_blocks,
            store.flags@.len() == old(store).flags@.len(),
            store.flags@.len() >= 1,
            store.flags@[0]@.len() == dims.n_blocks,
            forall|l: int|
                1 <= l < old(store).flags@.len() ==> #[trigger] store.flags@[l] == old(
                    store,
                ).flags@[l],
            forall|b: int| 0 <= b < bid ==> store.level0@[b] == map.levels@[b],
            forall|b: int| 0 <= b < bid ==> store.flags@[0]@[b] == results@[b],
            block_lists@.len() == n_levels,
            forall|l: int|
                0 <= l < n_levels ==> (#[trigger] block_lists@[l])@ == fine_coarse_ids(
                    map.levels@,
                    results@,
                    l,
                    bid as int,
                ),
            n_act == count_existing(results@, bid as int),
            n_act <= bid,
        decreases dims.n_blocks - bid,
    {
        let level: usize = map.levels[bid] as usize;
        let flags = results[bid];
        if flags.contains(BlockFlags::FINE_COARSE) {
            block_lists[level].push(bid);
        }
        if flags.contains(BlockFlags::EXISTS) {
            n_act = n_act + 1;
        }
        store.level0[bid] = map.levels[bid];
        *store.flags_mut(bid, 0) = flags;
        bid = bid + 1;
    }
    proof {
        assert(store.level0@ =~= map.levels@);
        assert(store.flags@[0]@ =~= results@);
        assert(results@ =~= Seq::new(
            dims.n_blocks as nat,
            |b: int| topology_flags(map.levels@, *dims, given, b),
        ));
    }
    Topology { blocks_fine_coarse: block_lists, n_act_blocks: n_act }
}

/// What the flags of a block say: it is at the domain border, on the fine side or on the coarse side
/// of a resolution border exactly if the flag is given or it is so, and all flags that are given stay.
pub proof fn law_topology_flags(
    levels: Seq<u8>,
    dims: BlockGridDims,
    block_flags: Option<Seq<BlockFlags>>,
    bid: int,
    bit: u16,
)
    ensures
        ({
            let given = BlockFlags(given_flags(block_flags, bid));
            let f = topology_flags(levels, dims, block_flags, bid);
            &&& f.has(BlockFlags::DOM_BORDER) <==> given.has(BlockFlags::DOM_BORDER) || on_border(
                dims,
                bid,
            )
            &&& f.has(BlockFlags::FINE_COARSE) <==> given.has(BlockFlags::FINE_COARSE)
                || touches_coarser(levels, dims, bid)
            &&& f.has(BlockFlags::COARSE_FINE) <==> given.has(BlockFlags::COARSE_FINE)
                || touches_finer(levels, dims, bid)
            &&& given.has(bit) ==> f.has(bit)
        }),
{
    let f0 = given_flags(block_flags, bid);
    let f1 = with_bit(f0, on_border(dims, bid), BlockFlags::DOM_BORDER);
    let f2 = with_bit(f1, touches_coarser(levels, dims, bid), BlockFlags::FINE_COARSE);
    let (dom, fine, coarse) = (0x0002u16, 0x0008u16, 0x0004u16);
    assert(dom & fine == 0 && dom & coarse == 0 && fine & coarse == 0 && fine & dom == 0 && coarse
        & dom == 0 && coarse & fine == 0) by (bit_vector)
        requires
            dom == 0x0002u16,
            fine == 0x0008u16,
            coarse == 0x0004u16,
    ;
    crate::multires::blockinfo::law_flag_bits(BlockFlags(f0), dom, dom);
    crate::multires::blockinfo::law_flag_bits(BlockFlags(f0), dom, fine);
    crate::multires::blockinfo::law_flag_bits(BlockFlags(f0), dom, coarse);
    crate::multires::blockinfo::law_flag_bits(BlockFlags(f1), fine, dom);
    crate::multires::blockinfo::law_flag_bits(BlockFlags(f1), fine, coarse);
    crate::multires::blockinfo::law_flag_bits(BlockFlags(f2), coarse, dom);
    crate::multires::blockinfo::law_flag_bits(BlockFlags(f2), coarse, fine);
    let f3 = with_bit(f2, touches_finer(levels, dims, bid), BlockFlags::COARSE_FINE);
    assert(f0 & bit != 0 ==> (f0 | dom) & bit != 0) by (bit_vector);
    assert(f1 & bit != 0 ==> (f1 | fine) & bit != 0) by (bit_vector);
    assert(f2 & bit != 0 ==> (f2 | coarse) & bit != 0) by (bit_vector);
}

/// A resolution border has two sides: beside a block that touches a coarser one there is a block that
/// touches a finer one, and the other way round.
pub proof fn law_border_has_two_sides(levels: Seq<u8>, dims: BlockGridDims, bid: int)
    requires
        dims.wf(),
        0 <= bid < dims.n_blocks,
    ensures
        touches_coarser(levels, dims, bid) ==> exists|b: int| #[trigger]
            dims.adjacent(bid, b) && touches_finer(levels, dims, b),
        touches_finer(levels, dims, bid) ==> exists|b: int| #[trigger]
            dims.adjacent(bid, b) && touches_coarser(levels, dims, b),
{
    if touches_coarser(levels, dims, bid) {
        let b = choose|b: int| #[trigger] dims.adjacent(bid, b) && levels[b] > levels[bid];
        assert(dims.adjacent(b, bid));
        assert(touches_finer(levels, dims, b));
    }
    if touches_finer(levels, dims, bid) {
        let b = choose|b: int| #[trigger] dims.adjacent(bid, b) && levels[b] < levels[bid];
        assert(dims.adjacent(b, bid));
        assert(touches_coarser(levels, dims, b));
    }
}

/// A map with one level has no resolution border.
pub proof fn law_uniform_has_no_border(levels: Seq<u8>, dims: BlockGridDims, level: u8, bid: int)
    requires
        dims.wf(),
        levels == Seq::new(dims.n_blocks as nat, |b: int| level),
        0 <= bid < dims.n_blocks,
    ensures
        !touches_coarser(levels, dims, bid),
        !touches_finer(levels, dims, bid),
{
}

/// The list of a level holds exactly the blocks of that level that have the fine-coarse flag, each
/// once and in increasing order.
pub proof fn law_fine_coarse_lists(levels: Seq<u8>, flags: Seq<BlockFlags>, level: int, n: int)
    requires
        0 <= n <= usize::MAX,
    ensures
        forall|b: usize| #[trigger]
            fine_coarse_ids(levels, flags, level, n).contains(b) <==> b < n && levels[b as int] == level
                && flags[b as int].0 & BlockFlags::FINE_COARSE != 0,
        forall|i: int, j: int|
            0 <= i < j < fine_coarse_ids(levels, flags, level, n).len() ==> #[trigger] fine_coarse_ids(
                levels,
                flags,
                level,
                n,
            )[i] < #[trigger] fine_coarse_ids(levels, flags, level, n)[j],
    decreases n,
{
    if n > 0 {
        law_fine_coarse_lists(levels, flags, level, n - 1);
        let rest = fine_coarse_ids(levels, flags, level, n - 1);
        let all = fine_coarse_ids(levels, flags, level, n);
        assert forall|b: usize| #[trigger] all.contains(b) <==> b < n && levels[b as int] == level
            && flags[b as int].0 & BlockFlags::FINE_COARSE != 0 by {
            if all.contains(b) {
                let i = choose|i: int| 0 <= i < all.len() && all[i] == b;
                if i < rest.len() {
                    assert(rest[i] == b);
                    assert(rest.contains(b));
                }
            }
            if b < n - 1 && rest.contains(b) {
                let i = choose|i: int| 0 <= i < rest.len() && rest[i] == b;
                assert(all[i] == b);
            }
            if b == n - 1 && levels[b as int] == level && flags[b as int].0
                & BlockFlags::FINE_COARSE != 0 {
                assert(flags[n - 1].has(BlockFlags::FINE_COARSE));
                assert(all[rest.len() as int] == b);
            }
        }
        assert forall|i: int, j: int| 0 <= i < j < all.len() implies #[trigger] all[i]
            < #[trigger] all[j] by {
            assert(all[i] == rest[i]);
            assert(rest.contains(rest[i]));
            if j < rest.len() {
                assert(all[j] == rest[j]);
            }
        }
    }
}

/// Every block with the flag is listed at its own level and at no other.
pub proof fn law_fine_coarse_lists_disjoint(
    levels: Seq<u8>,
    flags: Seq<BlockFlags>,
    l: int,
    m: int,
    n: int,
    b: usize,
)
    requires
        0 <= n <= usize::MAX,
        fine_coarse_ids(levels, flags, l, n).contains(b),
        fine_coarse_ids(levels, flags, m, n).contains(b),
    ensures
        l == m,
        levels[b as int] == l,
{
    law_fine_coarse_lists(levels, flags, l, n);
    law_fine_coarse_lists(levels, flags, m, n);
}

/// As many blocks are counted as have the flag that says they exist.
pub proof fn law_count_existing(flags: Seq<BlockFlags>, n: int)
    requires
        0 <= n,
    ensures
        Set::new(|b: int| 0 <= b < n && flags[b].0 & BlockFlags::EXISTS != 0).finite(),
        count_existing(flags, n) == Set::new(
            |b: int| 0 <= b < n && flags[b].0 & BlockFlags::EXISTS != 0,
        ).len(),
    decreases n,
{
    let s = Set::new(|b: int| 0 <= b < n && flags[b].0 & BlockFlags::EXISTS != 0);
    if n == 0 {
        assert(s =~= Set::<int>::empty());
    } else {
        law_count_existing(flags, n - 1);
        let t = Set::new(|b: int| 0 <= b < n - 1 && flags[b].0 & BlockFlags::EXISTS != 0);
        if flags[n - 1].has(BlockFlags::EXISTS) {
            assert(s =~= t.insert(n - 1));
        } else {
            assert(s =~= t);
        }
    }
}

/// Blocks are adjacent exactly if they are one step or none apart along each axis, and not the same:
/// the neighbours of a block are the up to 26 around it.
pub proof fn law_adjacent_is_one_step(
    dims: BlockGridDims,
    x: int,
    y: int,
    z: int,
    x2: int,
    y2: int,
    z2: int,
)
    requires
        dims.wf(),
        0 <= x < dims.nx,
        0 <= y < dims.ny,
        0 <= z < dims.nz,
        0 <= x2 < dims.nx,
        0 <= y2 < dims.ny,
        0 <= z2 < dims.nz,
    ensures
        ({
            let a = x + dims.nx * y + dims.nx * dims.ny * z;
            let b = x2 + dims.nx * y2 + dims.nx * dims.ny * z2;
            dims.adjacent(a, b) <==> (x != x2 || y != y2 || z != z2) && -1 <= x - x2 <= 1 && -1 <= y
                - y2 <= 1 && -1 <= z - z2 <= 1
        }),
{
    let (nx, ny, nz) = (dims.nx as int, dims.ny as int, dims.nz as int);
    crate::layout::law_coords_of_cell(x, y, z, nx, ny, nz);
    crate::layout::law_coords_of_cell(x2, y2, z2, nx, ny, nz);
}

/// Only blocks of the grid are adjacent, never a block to itself, and always both ways.
pub proof fn law_adjacent_symmetric(dims: BlockGridDims, a: int, b: int)
    requires
        dims.wf(),
        dims.adjacent(a, b),
    ensures
        0 <= a < dims.nx * dims.ny * dims.nz,
        0 <= b < dims.nx * dims.ny * dims.nz,
        a != b,
        dims.adjacent(b, a),
{
}

/// The coordinates of a block and its id undo each other.
pub proof fn law_block_coords(dims: BlockGridDims, x: int, y: int, z: int, b: int)
    requires
        dims.wf(),
        0 <= x < dims.nx,
        0 <= y < dims.ny,
        0 <= z < dims.nz,
        0 <= b < dims.n_blocks,
    ensures
        dims.id_at(x, y, z) == x + dims.nx * y + dims.nx * dims.ny * z,
        dims.x_of(x + dims.nx * y + dims.nx * dims.ny * z) == x,
        dims.y_of(x + dims.nx * y + dims.nx * dims.ny * z) == y,
        dims.z_of(x + dims.nx * y + dims.nx * dims.ny * z) == z,
        0 <= dims.x_of(b) < dims.nx,
        0 <= dims.y_of(b) < dims.ny,
        0 <= dims.z_of(b) < dims.nz,
        dims.x_of(b) + dims.nx * dims.y_of(b) + dims.nx * dims.ny * dims.z_of(b) == b,
        dims.has_block(x, y, z),
        !dims.has_block(-1, y, z) && !dims.has_block(x, -1, z) && !dims.has_block(x, y, -1),
        !dims.has_block(dims.nx as int, y, z) && !dims.has_block(x, dims.ny as int, z)
            && !dims.has_block(x, y, dims.nz as int),
{
    let (nx, ny, nz) = (dims.nx as int, dims.ny as int, dims.nz as int);
    crate::layout::law_coords_of_cell(x, y, z, nx, ny, nz);
    crate::layout::law_cell_of_index(b, nx, ny, nz);
}

/// After regularization the levels of blocks one step apart differ by at most one, no block is
/// coarser than it was, and a block at the finest level stays there.
pub proof fn law_regularized_is_graded(
    levels: Seq<u8>,
    dims: BlockGridDims,
    n_levels: int,
    a: int,
    b: int,
)
    requires
        dims.wf(),
        levels.len() == dims.n_blocks,
        1 <= n_levels <= 256,
        forall|i: int| 0 <= i < levels.len() ==> #[trigger] levels[i] < n_levels,
        dims.adjacent(a, b),
    ensures
        regularized(levels, dims, n_levels).len() == levels.len(),
        -1 <= regularized(levels, dims, n_levels)[a] - regularized(levels, dims, n_levels)[b] <= 1,
        regularized(levels, dims, n_levels)[a] <= levels[a],
        levels[a] == 0 ==> regularized(levels, dims, n_levels)[a] == 0,
{
    law_regularized_is_coarsest(levels, dims, n_levels);
    assert(dims.adjacent(b, a));
}

/// No map with levels that differ by at most one between blocks one step apart, and nowhere coarser
/// than the given one, is coarser anywhere than the regularized one.
pub proof fn law_regularized_coarsens_most(
    levels: Seq<u8>,
    dims: BlockGridDims,
    n_levels: int,
    m: Seq<u8>,
    i: int,
)
    requires
        dims.wf(),
        levels.len() == dims.n_blocks,
        1 <= n_levels <= 256,
        forall|k: int| 0 <= k < levels.len() ==> #[trigger] levels[k] < n_levels,
        m.len() == levels.len(),
        forall|k: int| 0 <= k < m.len() ==> #[trigger] m[k] <= levels[k],
        forall|a: int, b: int| #[trigger] dims.adjacent(a, b) ==> m[a] - m[b] <= 1,
        0 <= i < m.len(),
    ensures
        m[i] <= regularized(levels, dims, n_levels)[i],
{
    law_regularized_is_coarsest(levels, dims, n_levels);
    assert(no_coarser(m, levels));
    assert(two_to_one(m, dims));
    assert(no_coarser(m, regularized(levels, dims, n_levels)));
}

/// The flags of a block, bit by bit: the domain border flag where the block is first or last along
/// an axis, the fine-coarse flag where a block one step away is coarser, the coarse-fine flag where
/// one is finer, besides what is given; all other bits are those that are given.
pub proof fn law_topology_bits(
    levels: Seq<u8>,
    dims: BlockGridDims,
    block_flags: Option<Seq<BlockFlags>>,
    bid: int,
)
    ensures
        ({
            let given: u16 = match block_flags {
                Some(f) => f[bid].0,
                None => 0,
            };
            let f = topology_flags(levels, dims, block_flags, bid).0;
            &&& f & 0x0002 != 0 <==> given & 0x0002 != 0 || dims.x_of(bid) == 0 || dims.x_of(bid) + 1
                == dims.nx || dims.y_of(bid) == 0 || dims.y_of(bid) + 1 == dims.ny || dims.z_of(bid)
                == 0 || dims.z_of(bid) + 1 == dims.nz
            &&& f & 0x0008 != 0 <==> given & 0x0008 != 0 || exists|b: int| #[trigger]
                dims.adjacent(bid, b) && levels[b] > levels[bid]
            &&& f & 0x0004 != 0 <==> given & 0x0004 != 0 || exists|b: int| #[trigger]
                dims.adjacent(bid, b) && levels[b] < levels[bid]
            &&& f & 0xfff1 == given & 0xfff1
        }),
{
    let given = given_flags(block_flags, bid);
    let (p, q, r) = (
        on_border(dims, bid),
        touches_coarser(levels, dims, bid),
        touches_finer(levels, dims, bid),
    );
    lemma_three_bits(given, p, q, r);
}

proof fn lemma_three_bits(given: u16, p: bool, q: bool, r: bool)
    ensures
        ({
            let f = with_bit(with_bit(with_bit(given, p, 0x0002), q, 0x0008), r, 0x0004);
            &&& f & 0x0002 != 0 <==> given & 0x0002 != 0 || p
            &&& f & 0x0008 != 0 <==> given & 0x0008 != 0 || q
            &&& f & 0x0004 != 0 <==> given & 0x0004 != 0 || r
            &&& f & 0xfff1 == given & 0xfff1
        }),
{
    assert(({
        let f = with_bit(with_bit(with_bit(given, p, 0x0002), q, 0x0008), r, 0x0004);
        &&& (f & 0x0002 != 0) == (given & 0x0002 != 0 || p)
        &&& (f & 0x0008 != 0) == (given & 0x0008 != 0 || q)
        &&& (f & 0x0004 != 0) == (given & 0x0004 != 0 || r)
        &&& f & 0xfff1 == given & 0xfff1
    })) by (bit_vector);
}

/// Across a resolution border both blocks are flagged: the finer one as fine against coarse, the
/// coarser one as coarse against fine.
pub proof fn law_border_flags_both_sides(
    levels: Seq<u8>,
    dims: BlockGridDims,
    block_flags: Option<Seq<BlockFlags>>,
    a: int,
    b: int,
)
    requires
        dims.wf(),
        dims.adjacent(a, b),
        levels[a] < levels[b],
    ensures
        topology_flags(levels, dims, block_flags, a).0 & BlockFlags::FINE_COARSE != 0,
        topology_flags(levels, dims, block_flags, b).0 & BlockFlags::COARSE_FINE != 0,
{
    law_topology_bits(levels, dims, block_flags, a);
    law_topology_bits(levels, dims, block_flags, b);
    assert(dims.adjacent(b, a));
}

/// What the topology says of a block: the level is that of the map; the block is flagged, and
/// listed under its level and no other, exactly if a block one step away is coarser or the flag is
/// given.
pub proof fn law_topology_of_block(
    before: BlockInfoStore,
    after: BlockInfoStore,
    map: &RefinementMap,
    dims: BlockGridDims,
    n_levels: int,
    given: Option<Seq<BlockFlags>>,
    r: &Topology,
    b: usize,
    l: int,
)
    requires
        dims.wf(),
        is_topology(before, after, map, dims, n_levels, given, r),
        b < dims.n_blocks,
        0 <= l < n_levels,
    ensures
        after.level0@[b as int] == map.levels@[b as int],
        ({
            let fine = (given matches Some(f) && f[b as int].0 & 0x0008 != 0) || exists|c: int| #[trigger]
                dims.adjacent(b as int, c) && map.levels@[c] > map.levels@[b as int];
            let coarse = (given matches Some(f) && f[b as int].0 & 0x0004 != 0) || exists|c: int| #[trigger]
                dims.adjacent(b as int, c) && map.levels@[c] < map.levels@[b as int];
            &&& after.flags@[0]@[b as int].0 & 0x0008 != 0 <==> fine
            &&& after.flags@[0]@[b as int].0 & 0x0004 != 0 <==> coarse
            &&& r.blocks_fine_coarse@[l]@.contains(b) <==> map.levels@[b as int] == l && fine
        }),
{
    law_topology_bits(map.levels@, dims, given, b as int);
    law_fine_coarse_lists(map.levels@, after.flags@[0]@, l, dims.n_blocks as int);
    let none = 0u16;
    assert(none & 0x0008 == 0 && none & 0x0004 == 0) by (bit_vector)
        requires
            none == 0,
    ;
    let list = r.blocks_fine_coarse@[l];
    assert(list@ == fine_coarse_ids(map.levels@, after.flags@[0]@, l, dims.n_blocks as int));
    assert(list@.contains(b) <==> b < dims.n_blocks && map.levels@[b as int] == l
        && after.flags@[0]@[b as int].0 & BlockFlags::FINE_COARSE != 0);
}

} // verus!
