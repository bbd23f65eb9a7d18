//! Morton (Z-order) codes, and block lists sorted by them.

use crate::multires::refinement::BlockGridDims;
use vstd::prelude::*;

verus! {

/// The low ten bits of `v`, spread to every third bit.
pub open spec fn spread_bits(v: u32) -> u32 {
    let v0 = v & 0x3ffu32;
    let v1 = (v0 | (v0 << 16u32)) & 0x0300_00ffu32;
    let v2 = (v1 | (v1 << 8u32)) & 0x0300_f00fu32;
    let v3 = (v2 | (v2 << 4u32)) & 0x030c_30c3u32;
    (v3 | (v3 << 2u32)) & 0x0924_9249u32
}

/// The Morton code of `(x, y, z)`: ten bits an axis.
pub open spec fn morton_code(x: u32, y: u32, z: u32) -> u32 {
    spread_bits(x) | (spread_bits(y) << 1u32) | (spread_bits(z) << 2u32)
}

/// Bit `i` of `v`.
pub open spec fn bit(v: u32, i: u32) -> u32 {
    (v >> i) & 1u32
}

/// Spreads the low ten bits of `v` to every third bit.
fn spread(v: u32) -> (r: u32)
    ensures
        r == spread_bits(v),
{
    let v0: u32 = v & 0x3ff;
    let v1: u32 = (v0 | (v0 << 16u32)) & 0x0300_00ff;
    let v2: u32 = (v1 | (v1 << 8u32)) & 0x0300_f00f;
    let v3: u32 = (v2 | (v2 << 4u32)) & 0x030c_30c3;
    (v3 | (v3 << 2u32)) & 0x0924_9249
}

/// Morton code of thirty bits, ten an axis.
pub fn morton3(x: u32, y: u32, z: u32) -> (r: u32)
    ensures
        r == morton_code(x, y, z),
{
    spread(x) | (spread(y) << 1u32) | (spread(z) << 2u32)
}

/// The bits of a Morton code are those of the coordinates, taken in turn: x, then y, then z, from the
/// lowest up; there are thirty of them.
pub proof fn law_morton_interleaves(x: u32, y: u32, z: u32, i: u32)
    requires
        i < 10,
    ensures
        bit(morton_code(x, y, z), (3 * i) as u32) == bit(x, i),
        bit(morton_code(x, y, z), (3 * i + 1) as u32) == bit(y, i),
        bit(morton_code(x, y, z), (3 * i + 2) as u32) == bit(z, i),
        morton_code(x, y, z) < 0x4000_0000,
{
    assert(bit(morton_code(x, y, z), (3 * i) as u32) == bit(x, i)) by (bit_vector)
        requires
            i < 10,
    ;
    assert(bit(morton_code(x, y, z), (3 * i + 1) as u32) == bit(y, i)) by (bit_vector)
        requires
            i < 10,
    ;
    assert(bit(morton_code(x, y, z), (3 * i + 2) as u32) == bit(z, i)) by (bit_vector)
        requires
            i < 10,
    ;
    assert(morton_code(x, y, z) < 0x4000_0000) by (bit_vector);
}

/// Coordinates of ten bits have the same Morton code only if they are the same.
pub proof fn law_morton_injective(x: u32, y: u32, z: u32, x2: u32, y2: u32, z2: u32)
    requires
        x < 1024,
        y < 1024,
        z < 1024,
        x2 < 1024,
        y2 < 1024,
        z2 < 1024,
        morton_code(x, y, z) == morton_code(x2, y2, z2),
    ensures
        x == x2,
        y == y2,
        z == z2,
{
    assert(x == x2 && y == y2 && z == z2) by (bit_vector)
        requires
            x < 1024,
            y < 1024,
            z < 1024,
            x2 < 1024,
            y2 < 1024,
            z2 < 1024,
            morton_code(x, y, z) == morton_code(x2, y2, z2),
    ;
}

/// The first elements of `s` do not decrease.
pub open spec fn sorted_keys(s: Seq<(u64, u32)>) -> bool {
    forall|i: int, j: int| 0 <= i <= j < s.len() ==> (#[trigger] s[i]).0 <= (#[trigger] s[j]).0
}

/// Sorts with the slice method `sort_unstable_by_key`, by the first elements: the result is a
/// permutation of what was there, with first elements that do not decrease. In which order pairs of
/// equal first elements come out is open.
#[verifier::external_body]
pub(crate) fn sort_keyed(v: &mut Vec<(u64, u32)>)
    ensures
        final(v)@.to_multiset() == old(v)@.to_multiset(),
        sorted_keys(final(v)@),
{
    v.sort_unstable_by_key(|&(k, _)| k);
}

/// The ids of `s` with their keys.
pub open spec fn keyed(s: Seq<u32>, key: spec_fn(u32) -> u64) -> Seq<(u64, u32)> {
    Seq::new(s.len(), |i: int| (key(s[i]), s[i]))
}

/// `after` holds the ids of `before`, sorted by key.
pub open spec fn sorted_by(before: Seq<u32>, after: Seq<u32>, key: spec_fn(u32) -> u64) -> bool {
    &&& after.to_multiset() == before.to_multiset()
    &&& forall|i: int, j: int|
        0 <= i <= j < after.len() ==> key(#[trigger] after[i]) <= key(#[trigger] after[j])
}

/// A sorted permutation of the keyed ids gives the ids sorted by key.
pub(crate) proof fn lemma_sorted_ids(
    before: Seq<u32>,
    pairs: Seq<(u64, u32)>,
    after: Seq<u32>,
    key: spec_fn(u32) -> u64,
)
    requires
        pairs.to_multiset() == keyed(before, key).to_multiset(),
        sorted_keys(pairs),
        after == Seq::new(pairs.len(), |i: int| pairs[i].1),
    ensures
        sorted_by(before, after, key),
        after.len() == before.len(),
{
    broadcast use vstd::seq_lib::group_to_multiset_ensures;

    let all = keyed(before, key);
    vstd::seq_lib::to_multiset_len(pairs);
    vstd::seq_lib::to_multiset_len(all);
    assert forall|i: int| 0 <= i < pairs.len() implies #[trigger] pairs[i].0 == key(pairs[i].1) by {
        assert(pairs.contains(pairs[i]));
        assert(all.to_multiset().count(pairs[i]) > 0);
        assert(all.contains(pairs[i]));
        let j = choose|j: int| 0 <= j < all.len() && all[j] == pairs[i];
        assert(all[j] == (key(before[j]), before[j]));
    }
    assert forall|i: int, j: int| 0 <= i <= j < after.len() implies key(#[trigger] after[i]) <= key(
        #[trigger] after[j],
    ) by {
        assert(pairs[i].0 <= pairs[j].0);
        assert(pairs[i].0 == key(pairs[i].1) && pairs[j].0 == key(pairs[j].1));
    }
    lemma_second_multiset(pairs, all);
    assert(after =~= pairs.map_values(|p: (u64, u32)| p.1));
    assert(before =~= all.map_values(|p: (u64, u32)| p.1));
}

/// Permuted pairs have permuted second elements.
proof fn lemma_second_multiset(a: Seq<(u64, u32)>, b: Seq<(u64, u32)>)
    requires
        a.to_multiset() == b.to_multiset(),
    ensures
        a.map_values(|p: (u64, u32)| p.1).to_multiset() == b.map_values(
            |p: (u64, u32)| p.1,
        ).to_multiset(),
    decreases a.len(),
{
    broadcast use vstd::seq_lib::group_to_multiset_ensures;

    let f = |p: (u64, u32)| p.1;
    vstd::seq_lib::to_multiset_len(a);
    vstd::seq_lib::to_multiset_len(b);
    if a.len() == 0 {
        assert(a.map_values(f) =~= b.map_values(f));
    } else {
        let last = a.last();
        assert(a[a.len() - 1] == last);
        assert(a.contains(last));
        assert(b.to_multiset().count(last) > 0);
        assert(b.contains(last));
        let j = choose|j: int| 0 <= j < b.len() && b[j] == last;
        let a1 = a.remove(a.len() - 1);
        let b1 = b.remove(j);
        vstd::seq_lib::to_multiset_remove(a, a.len() - 1);
        vstd::seq_lib::to_multiset_remove(b, j);
        lemma_second_multiset(a1, b1);
        assert(a.map_values(f).remove(a.len() - 1) =~= a1.map_values(f));
        assert(b.map_values(f).remove(j) =~= b1.map_values(f));
        vstd::seq_lib::to_multiset_remove(a.map_values(f), a.len() - 1);
        vstd::seq_lib::to_multiset_remove(b.map_values(f), j);
        let am = a.map_values(f).to_multiset();
        let bm = b.map_values(f).to_multiset();
        assert(am.remove(last.1) == bm.remove(last.1));
        assert(a.map_values(f).contains(last.1)) by {
            assert(a.map_values(f)[a.len() - 1] == last.1);
        }
        assert(b.map_values(f).contains(last.1)) by {
            assert(b.map_values(f)[j] == last.1);
        }
        assert(am.count(last.1) > 0 && bm.count(last.1) > 0);
        assert(am =~= am.remove(last.1).insert(last.1));
        assert(bm =~= bm.remove(last.1).insert(last.1));
    }
}

/// The sort key of block `bid`: the Morton code of its ancestor on the coarsest lattice, then coarser
/// levels first, then the Morton code of its place under that ancestor.
pub open spec fn block_key(dims: BlockGridDims, levels: Seq<u8>, n_levels: int, bid: u32) -> u64 {
    let shift = (n_levels - 1) as u32;
    let mask = ((1u32 << shift) - 1) as u32;
    let x = dims.x_of(bid as int) as u32;
    let y = dims.y_of(bid as int) as u32;
    let z = dims.z_of(bid as int) as u32;
    let coarse = morton_code(x >> shift, y >> shift, z >> shift);
    let priority = (shift - levels[bid as int]) as u32;
    let fine = morton_code(x & mask, y & mask, z & mask);
    join_key(coarse, priority, fine)
}

/// The three parts of a sort key, from the highest bits down.
pub open spec fn join_key(coarse: u32, priority: u32, fine: u32) -> u64 {
    ((coarse as u64) << 34u64) | ((priority as u64) << 30u64) | (fine as u64)
}

/// Keys are ordered by ancestor, then by level, then by place.
pub proof fn law_key_order(c: u32, p: u32, f: u32, c2: u32, p2: u32, f2: u32)
    requires
        c < 0x4000_0000,
        c2 < 0x4000_0000,
        p < 16,
        p2 < 16,
        f < 0x4000_0000,
        f2 < 0x4000_0000,
    ensures
        join_key(c, p, f) < join_key(c2, p2, f2) <==> (c < c2 || (c == c2 && (p < p2 || (p == p2 && f
            < f2)))),
{
    assert(join_key(c, p, f) < join_key(c2, p2, f2) <==> (c < c2 || (c == c2 && (p < p2 || (p == p2 && f
        < f2))))) by (bit_vector)
        requires
            c < 0x4000_0000,
            c2 < 0x4000_0000,
            p < 16,
            p2 < 16,
            f < 0x4000_0000,
            f2 < 0x4000_0000,
    ;
}

/// Of two blocks under the same coarsest ancestor, the coarser one has the smaller key.
pub proof fn law_coarser_first(dims: BlockGridDims, levels: Seq<u8>, n_levels: int, a: u32, b: u32)
    requires
        1 <= n_levels <= 16,
        levels[b as int] < levels[a as int] < n_levels,
        dims.x_of(a as int) as u32 >> (n_levels - 1) as u32 == dims.x_of(b as int) as u32 >> (n_levels - 1) as u32,
        dims.y_of(a as int) as u32 >> (n_levels - 1) as u32 == dims.y_of(b as int) as u32 >> (n_levels - 1) as u32,
        dims.z_of(a as int) as u32 >> (n_levels - 1) as u32 == dims.z_of(b as int) as u32 >> (n_levels - 1) as u32,
    ensures
        block_key(dims, levels, n_levels, a) < block_key(dims, levels, n_levels, b),
{
    let shift = (n_levels - 1) as u32;
    let mask = ((1u32 << shift) - 1) as u32;
    let (xa, ya, za) = (dims.x_of(a as int) as u32, dims.y_of(a as int) as u32, dims.z_of(a as int) as u32);
    let (xb, yb, zb) = (dims.x_of(b as int) as u32, dims.y_of(b as int) as u32, dims.z_of(b as int) as u32);
    law_morton_interleaves(xa >> shift, ya >> shift, za >> shift, 0);
    law_morton_interleaves(xa & mask, ya & mask, za & mask, 0);
    law_morton_interleaves(xb & mask, yb & mask, zb & mask, 0);
    let c = morton_code(xa >> shift, ya >> shift, za >> shift);
    law_key_order(
        c,
        (shift - levels[a as int]) as u32,
        morton_code(xa & mask, ya & mask, za & mask),
        c,
        (shift - levels[b as int]) as u32,
        morton_code(xb & mask, yb & mask, zb & mask),
    );
}

/// Sorts a block list so that a coarse block and its finer descendants stand together, the coarse
/// block first.
pub fn sort_block_list_morton(
    blocks: &mut Vec<u32>,
    dims: &BlockGridDims,
    levels: &Vec<u8>,
    n_levels: usize,
)
    requires
        dims.wf(),
        levels@.len() == dims.n_blocks,
        1 <= n_levels <= 32,
        forall|i: int|
            0 <= i < old(blocks)@.len() ==> (#[trigger] old(blocks)@[i]) < dims.n_blocks
                && levels@[old(blocks)@[i] as int] < n_levels,
    ensures
        sorted_by(
            old(blocks)@,
            final(blocks)@,
            |bid: u32| block_key(*dims, levels@, n_levels as int, bid),
        ),
{
    let shift: u32 = (n_levels - 1) as u32;
    assert(1u32 << shift >= 1) by (bit_vector)
        requires
            shift < 32,
    ;
    let mask: u32 = (1u32 << shift) - 1;
    let ghost key = |bid: u32| block_key(*dims, levels@, n_levels as int, bid);
    let mut pairs: Vec<(u64, u32)> = Vec::with_capacity(blocks.len());
    let mut i: usize = 0;
    while i < blocks.len()
        invariant
            dims.wf(),
            levels@.len() == dims.n_blocks,
            1 <= n_levels <= 32,
            shift == n_levels - 1,
            mask == (1u32 << shift) - 1,
            blocks@ == old(blocks)@,
            forall|k: int|
                0 <= k < blocks@.len() ==> (#[trigger] blocks@[k]) < dims.n_blocks
                    && levels@[blocks@[k] as int] < n_levels,
            key == (|bid: u32| block_key(*dims, levels@, n_levels as int, bid)),
            i <= blocks@.len(),
            pairs@ == keyed(blocks@.take(i as int), key),
        decreases blocks@.len() - i,
    {
        let bid: u32 = blocks[i];
        assert(blocks@[i as int] < dims.n_blocks);
        let (bx, by, bz) = dims.coords(bid as usize);
        let (x, y, z): (u32, u32, u32) = (bx as u32, by as u32, bz as u32);
        let coarse: u32 = morton3(x >> shift, y >> shift, z >> shift);
        let priority: u32 = shift - levels[bid as usize] as u32;
        let fine: u32 = morton3(x & mask, y & mask, z & mask);
        let k: u64 = ((coarse as u64) << 34u64) | ((priority as u64) << 30u64) | (fine as u64);
        pairs.push((k, bid));
        proof {
            assert(k == key(bid));
            assert(pairs@ =~= keyed(blocks@.take(i + 1), key));
        }
        i = i + 1;
    }
    proof {
        assert(blocks@.take(blocks@.len() as int) =~= blocks@);
    }
    sort_keyed(&mut pairs);
    let ghost sorted = pairs@;
    let mut out: Vec<u32> = Vec::with_capacity(pairs.len());
    let mut j: usize = 0;
    while j < pairs.len()
        invariant
            j <= pairs@.len(),
            out@ == Seq::new(j as nat, |k: int| pairs@[k].1),
        decreases pairs@.len() - j,
    {
        out.push(pairs[j].1);
        j = j + 1;
    }
    proof {
        lemma_sorted_ids(old(blocks)@, pairs@, out@, key);
    }
    *blocks = out;
}

/// The parts of a sort key in plain numbers: with `p` the number of finest blocks along the edge of
/// a coarsest one, the ancestor of a block is at its coordinates over `p`, and its place under it
/// is the remainder.
pub proof fn law_key_parts(dims: BlockGridDims, levels: Seq<u8>, n_levels: int, b: u32)
    requires
        1 <= n_levels <= 32,
        levels[b as int] < n_levels,
        0 <= dims.x_of(b as int) <= u32::MAX,
        0 <= dims.y_of(b as int) <= u32::MAX,
        0 <= dims.z_of(b as int) <= u32::MAX,
    ensures
        ({
            let p = vstd::arithmetic::power2::pow2((n_levels - 1) as nat) as int;
            let (x, y, z) = (dims.x_of(b as int), dims.y_of(b as int), dims.z_of(b as int));
            let c = morton_code((x / p) as u32, (y / p) as u32, (z / p) as u32);
            let f = morton_code((x % p) as u32, (y % p) as u32, (z % p) as u32);
            &&& 0 < p
            &&& c < 0x4000_0000
            &&& f < 0x4000_0000
            &&& block_key(dims, levels, n_levels, b) == join_key(
                c,
                (n_levels - 1 - levels[b as int]) as u32,
                f,
            )
        }),
{
    let shift = (n_levels - 1) as u32;
    let p = vstd::arithmetic::power2::pow2(shift as nat) as int;
    let (x, y, z) = (
        dims.x_of(b as int) as u32,
        dims.y_of(b as int) as u32,
        dims.z_of(b as int) as u32,
    );
    vstd::arithmetic::power2::lemma2_to64();
    vstd::arithmetic::power2::lemma_pow2_pos(shift as nat);
    vstd::arithmetic::power2::lemma_pow2_strictly_increases(shift as nat, 32);
    vstd::bits::lemma_u32_shl_is_mul(1, shift);
    vstd::bits::lemma_u32_shr_is_div(x, shift);
    vstd::bits::lemma_u32_shr_is_div(y, shift);
    vstd::bits::lemma_u32_shr_is_div(z, shift);
    vstd::bits::lemma_u32_low_bits_mask_is_mod(x, shift as nat);
    vstd::bits::lemma_u32_low_bits_mask_is_mod(y, shift as nat);
    vstd::bits::lemma_u32_low_bits_mask_is_mod(z, shift as nat);
    law_morton_interleaves(x >> shift, y >> shift, z >> shift, 0);
    let mask = ((1u32 << shift) - 1) as u32;
    law_morton_interleaves(x & mask, y & mask, z & mask, 0);
}

/// Blocks are ordered by the Morton code of their coarsest ancestor; under one ancestor the coarser
/// ones come first; and those of one level by the Morton code of their place under it.
pub proof fn law_key_orders_families(
    dims: BlockGridDims,
    levels: Seq<u8>,
    n_levels: int,
    a: u32,
    b: u32,
)
    requires
        1 <= n_levels <= 16,
        levels[a as int] < n_levels,
        levels[b as int] < n_levels,
        0 <= dims.x_of(a as int) <= u32::MAX,
        0 <= dims.y_of(a as int) <= u32::MAX,
        0 <= dims.z_of(a as int) <= u32::MAX,
        0 <= dims.x_of(b as int) <= u32::MAX,
        0 <= dims.y_of(b as int) <= u32::MAX,
        0 <= dims.z_of(b as int) <= u32::MAX,
    ensures
        ({
            let p = vstd::arithmetic::power2::pow2((n_levels - 1) as nat) as int;
            let (xa, ya, za) = (dims.x_of(a as int), dims.y_of(a as int), dims.z_of(a as int));
            let (xb, yb, zb) = (dims.x_of(b as int), dims.y_of(b as int), dims.z_of(b as int));
            let ca = morton_code((xa / p) as u32, (ya / p) as u32, (za / p) as u32);
            let cb = morton_code((xb / p) as u32, (yb / p) as u32, (zb / p) as u32);
            let fa = morton_code((xa % p) as u32, (ya % p) as u32, (za % p) as u32);
            let fb = morton_code((xb % p) as u32, (yb % p) as u32, (zb % p) as u32);
            let first = block_key(dims, levels, n_levels, a) < block_key(dims, levels, n_levels, b);
            &&& ca != cb ==> (first <==> ca < cb)
            &&& ca == cb && levels[a as int] != levels[b as int] ==> (first <==> levels[a as int]
                > levels[b as int])
            &&& ca == cb && levels[a as int] == levels[b as int] ==> (first <==> fa < fb)
            &&& ca == cb && levels[a as int] == levels[b as int] && fa == fb ==> block_key(
                dims,
                levels,
                n_levels,
                a,
            ) == block_key(dims, levels, n_levels, b)
        }),
{
    let p = vstd::arithmetic::power2::pow2((n_levels - 1) as nat) as int;
    law_key_parts(dims, levels, n_levels, a);
    law_key_parts(dims, levels, n_levels, b);
    let (xa, ya, za) = (dims.x_of(a as int), dims.y_of(a as int), dims.z_of(a as int));
    let (xb, yb, zb) = (dims.x_of(b as int), dims.y_of(b as int), dims.z_of(b as int));
    law_key_order(
        morton_code((xa / p) as u32, (ya / p) as u32, (za / p) as u32),
        (n_levels - 1 - levels[a as int]) as u32,
        morton_code((xa % p) as u32, (ya % p) as u32, (za % p) as u32),
        morton_code((xb / p) as u32, (yb / p) as u32, (zb / p) as u32),
        (n_levels - 1 - levels[b as int]) as u32,
        morton_code((xb % p) as u32, (yb % p) as u32, (zb % p) as u32),
    );
}

/// The block at `a` has the coarsest ancestor of the block at `b`.
pub open spec fn same_ancestor(dims: BlockGridDims, n_levels: int, a: u32, b: u32) -> bool {
    let p = vstd::arithmetic::power2::pow2((n_levels - 1) as nat) as int;
    &&& dims.x_of(a as int) / p == dims.x_of(b as int) / p
    &&& dims.y_of(a as int) / p == dims.y_of(b as int) / p
    &&& dims.z_of(a as int) / p == dims.z_of(b as int) / p
}

/// Blocks with different ancestors, at coordinates below 1024 on the coarsest lattice, are ordered as
/// the Morton codes of these are, which differ.
pub proof fn law_ancestors_order_blocks(
    dims: BlockGridDims,
    levels: Seq<u8>,
    n_levels: int,
    a: u32,
    b: u32,
)
    requires
        1 <= n_levels <= 16,
        levels[a as int] < n_levels,
        levels[b as int] < n_levels,
        0 <= dims.x_of(a as int) < 1024 * vstd::arithmetic::power2::pow2((n_levels - 1) as nat),
        0 <= dims.y_of(a as int) < 1024 * vstd::arithmetic::power2::pow2((n_levels - 1) as nat),
        0 <= dims.z_of(a as int) < 1024 * vstd::arithmetic::power2::pow2((n_levels - 1) as nat),
        0 <= dims.x_of(b as int) < 1024 * vstd::arithmetic::power2::pow2((n_levels - 1) as nat),
        0 <= dims.y_of(b as int) < 1024 * vstd::arithmetic::power2::pow2((n_levels - 1) as nat),
        0 <= dims.z_of(b as int) < 1024 * vstd::arithmetic::power2::pow2((n_levels - 1) as nat),
        !same_ancestor(dims, n_levels, a, b),
    ensures
        ({
            let p = vstd::arithmetic::power2::pow2((n_levels - 1) as nat) as int;
            let (xa, ya, za) = (dims.x_of(a as int), dims.y_of(a as int), dims.z_of(a as int));
            let (xb, yb, zb) = (dims.x_of(b as int), dims.y_of(b as int), dims.z_of(b as int));
            let ca = morton_code((xa / p) as u32, (ya / p) as u32, (za / p) as u32);
            let cb = morton_code((xb / p) as u32, (yb / p) as u32, (zb / p) as u32);
            &&& ca != cb
            &&& block_key(dims, levels, n_levels, a) < block_key(dims, levels, n_levels, b) <==> ca
                < cb
            &&& block_key(dims, levels, n_levels, a) != block_key(dims, levels, n_levels, b)
        }),
{
    let p = vstd::arithmetic::power2::pow2((n_levels - 1) as nat) as int;
    vstd::arithmetic::power2::lemma2_to64();
    vstd::arithmetic::power2::lemma_pow2_pos((n_levels - 1) as nat);
    vstd::arithmetic::power2::lemma_pow2_strictly_increases((n_levels - 1) as nat, 16);
    let (xa, ya, za) = (dims.x_of(a as int), dims.y_of(a as int), dims.z_of(a as int));
    let (xb, yb, zb) = (dims.x_of(b as int), dims.y_of(b as int), dims.z_of(b as int));
    lemma_quotient_small(xa, p);
    lemma_quotient_small(ya, p);
    lemma_quotient_small(za, p);
    lemma_quotient_small(xb, p);
    lemma_quotient_small(yb, p);
    lemma_quotient_small(zb, p);
    let ca = morton_code((xa / p) as u32, (ya / p) as u32, (za / p) as u32);
    let cb = morton_code((xb / p) as u32, (yb / p) as u32, (zb / p) as u32);
    if ca == cb {
        law_morton_injective(
            (xa / p) as u32,
            (ya / p) as u32,
            (za / p) as u32,
            (xb / p) as u32,
            (yb / p) as u32,
            (zb / p) as u32,
        );
    }
    law_key_orders_families(dims, levels, n_levels, a, b);
    law_key_orders_families(dims, levels, n_levels, b, a);
}

proof fn lemma_quotient_small(x: int, p: int)
    requires
        0 <= x < 1024 * p,
        0 < p,
    ensures
        0 <= x / p < 1024,
{
    vstd::arithmetic::div_mod::lemma_div_pos_is_pos(x, p);
    vstd::arithmetic::div_mod::lemma_multiply_divide_lt(x, p, 1024);
}

/// In a sorted list the blocks under one coarsest ancestor stand together: between two of them there
/// is none of another family.
pub proof fn law_families_are_contiguous(
    before: Seq<u32>,
    after: Seq<u32>,
    dims: BlockGridDims,
    levels: Seq<u8>,
    n_levels: int,
    i: int,
    j: int,
    k: int,
)
    requires
        1 <= n_levels <= 16,
        sorted_by(before, after, |bid: u32| block_key(dims, levels, n_levels, bid)),
        0 <= i <= j <= k < after.len(),
        forall|m: int|
            0 <= m < after.len() ==> levels[(#[trigger] after[m]) as int] < n_levels && 0
                <= dims.x_of(after[m] as int) < 1024 * vstd::arithmetic::power2::pow2(
                (n_levels - 1) as nat,
            ) && 0 <= dims.y_of(after[m] as int) < 1024 * vstd::arithmetic::power2::pow2(
                (n_levels - 1) as nat,
            ) && 0 <= dims.z_of(after[m] as int) < 1024 * vstd::arithmetic::power2::pow2(
                (n_levels - 1) as nat,
            ),
        same_ancestor(dims, n_levels, after[i], after[k]),
    ensures
        same_ancestor(dims, n_levels, after[i], after[j]),
{
    let (a, b, c) = (after[i], after[j], after[k]);
    if !same_ancestor(dims, n_levels, a, b) {
        let key = |bid: u32| block_key(dims, levels, n_levels, bid);
        assert(key(a) <= key(b) && key(b) <= key(c));
        law_ancestors_order_blocks(dims, levels, n_levels, a, b);
        law_ancestors_order_blocks(dims, levels, n_levels, b, c);
        law_ancestors_order_blocks(dims, levels, n_levels, c, b);
    }
}

/// In a sorted list a block comes before the finer ones under its coarsest ancestor, and no block is
/// lost or added.
pub proof fn law_coarse_block_leads(
    before: Seq<u32>,
    after: Seq<u32>,
    dims: BlockGridDims,
    levels: Seq<u8>,
    n_levels: int,
    i: int,
    j: int,
)
    requires
        1 <= n_levels <= 16,
        sorted_by(before, after, |bid: u32| block_key(dims, levels, n_levels, bid)),
        0 <= i < after.len(),
        0 <= j < after.len(),
        levels[after[j] as int] < levels[after[i] as int] < n_levels,
        0 <= dims.x_of(after[i] as int) <= u32::MAX,
        0 <= dims.y_of(after[i] as int) <= u32::MAX,
        0 <= dims.z_of(after[i] as int) <= u32::MAX,
        0 <= dims.x_of(after[j] as int) <= u32::MAX,
        0 <= dims.y_of(after[j] as int) <= u32::MAX,
        0 <= dims.z_of(after[j] as int) <= u32::MAX,
        same_ancestor(dims, n_levels, after[i], after[j]),
    ensures
        i < j,
        after.to_multiset() == before.to_multiset(),
{
    law_key_orders_families(dims, levels, n_levels, after[i], after[j]);
    let key = |bid: u32| block_key(dims, levels, n_levels, bid);
    if j <= i {
        assert(key(after[j]) <= key(after[i]));
    }
}

/// The parts of a key can be told from it, but where the priority takes more than four bits: the
/// fine code is in the lowest 30 bits, and above it the priority and the coarse code.
pub proof fn law_key_bits(c: u32, p: u32, f: u32)
    requires
        c < 0x4000_0000,
        p < 32,
        f < 0x4000_0000,
    ensures
        join_key(c, p, f) & 0x3fff_ffff == f as u64,
        join_key(c, p, f) >> 30u64 == ((c as u64) << 4u64) | (p as u64),
{
    assert((((c as u64) << 34u64) | ((p as u64) << 30u64) | (f as u64)) & 0x3fff_ffff == f as u64 && (((
    c as u64) << 34u64) | ((p as u64) << 30u64) | (f as u64)) >> 30u64 == ((c as u64) << 4u64) | (
    p as u64)) by (bit_vector)
        requires
            c < 0x4000_0000,
            p < 32,
            f < 0x4000_0000,
    ;
}

} // verus!
