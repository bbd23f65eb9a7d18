//! Integer facts shared by the other modules.

use vstd::prelude::*;

verus! {

/// `n` is a power of two.
pub open spec fn is_pow2(n: int) -> bool {
    exists|p: nat| #[trigger] vstd::arithmetic::power2::pow2(p) == n
}

/// `r` is the least power of two that is not below `n`.
pub open spec fn is_next_pow2(n: int, r: int) -> bool {
    is_pow2(r) && n <= r && (r == 1 || r < 2 * n)
}

/// The larger of two integers.
pub open spec fn max(a: int, b: int) -> int {
    if a < b { b } else { a }
}

/// The smaller of two integers.
pub open spec fn min(a: int, b: int) -> int {
    if a < b { a } else { b }
}

/// Twice a power of two is a power of two.
pub proof fn lemma_pow2_double(n: int)
    requires
        is_pow2(n),
    ensures
        is_pow2(2 * n),
{
    let p = choose|p: nat| #[trigger] vstd::arithmetic::power2::pow2(p) == n;
    vstd::arithmetic::power2::lemma_pow2_unfold(p + 1);
    assert(vstd::arithmetic::power2::pow2(p + 1) == 2 * n);
}

/// A power of two from 4 on is a multiple of 4.
pub proof fn lemma_pow2_mod4(n: int)
    requires
        is_pow2(n),
        n >= 4,
    ensures
        n % 4 == 0,
{
    let p = choose|p: nat| #[trigger] vstd::arithmetic::power2::pow2(p) == n;
    vstd::arithmetic::power2::lemma2_to64();
    if p < 2 {
        assert(p == 0 || p == 1);
    }
    vstd::arithmetic::power2::lemma_pow2_unfold(p);
    vstd::arithmetic::power2::lemma_pow2_unfold((p - 1) as nat);
}

/// Two powers of two in `[n, 2n)` are equal, so `is_next_pow2` pins its second argument.
pub proof fn lemma_next_pow2_unique(n: int, a: int, b: int)
    requires
        is_next_pow2(n, a),
        is_next_pow2(n, b),
        n >= 1,
    ensures
        a == b,
{
    let p = choose|p: nat| #[trigger] vstd::arithmetic::power2::pow2(p) == a;
    let q = choose|q: nat| #[trigger] vstd::arithmetic::power2::pow2(q) == b;
    if p < q {
        lemma_pow2_gap(p, q);
    } else if q < p {
        lemma_pow2_gap(q, p);
    }
}

proof fn lemma_pow2_gap(p: nat, q: nat)
    requires
        p < q,
    ensures
        2 * vstd::arithmetic::power2::pow2(p) <= vstd::arithmetic::power2::pow2(q),
{
    vstd::arithmetic::power2::lemma_pow2_unfold(p + 1);
    if p + 1 < q {
        vstd::arithmetic::power2::lemma_pow2_strictly_increases(p + 1, q);
    }
}

/// Masking with one less than a power of two takes the remainder.
pub proof fn lemma_mask_is_mod(x: u64, mask: usize)
    requires
        is_pow2(mask + 1),
        mask < usize::MAX,
    ensures
        ((x as usize) & mask) as int == (x as int) % (mask + 1),
{
    let p = choose|p: nat| #[trigger] vstd::arithmetic::power2::pow2(p) == mask + 1;
    assert(((x as usize) & mask) as u64 == x & (mask as u64)) by (bit_vector);
    vstd::arithmetic::power2::lemma2_to64();
    vstd::arithmetic::power2::lemma2_to64_rest();
    if p >= 64 {
        if p > 64 {
            vstd::arithmetic::power2::lemma_pow2_strictly_increases(64, p);
        }
        assert(mask + 1 >= 0x1_0000_0000_0000_0000);
        assert(false);
    }
    vstd::bits::lemma_u64_low_bits_mask_is_mod(x, p);
    assert(vstd::bits::low_bits_mask(p) == mask);
}

/// The remainder by a power of two of at most 2^64 ignores what wraps around 2^64.
pub proof fn lemma_wrap_mod(x: int, c: int)
    requires
        is_pow2(c),
        c <= 0x1_0000_0000_0000_0000,
    ensures
        (x % 0x1_0000_0000_0000_0000) % c == x % c,
{
    let p = choose|p: nat| #[trigger] vstd::arithmetic::power2::pow2(p) == c;
    vstd::arithmetic::power2::lemma2_to64();
    vstd::arithmetic::power2::lemma2_to64_rest();
    if p > 64 {
        vstd::arithmetic::power2::lemma_pow2_strictly_increases(64, p);
    }
    let q = (64 - p) as nat;
    vstd::arithmetic::power2::lemma_pow2_adds(p, q);
    vstd::arithmetic::power2::lemma_pow2_pos(p);
    vstd::arithmetic::power2::lemma_pow2_pos(q);
    vstd::arithmetic::div_mod::lemma_mod_mod(
        x,
        c,
        vstd::arithmetic::power2::pow2(q) as int,
    );
}

/// The least power of two that is not below `n`.
pub fn next_power_of_two(n: usize) -> (r: usize)
    requires
        1 <= n <= usize::MAX / 2 + 1,
    ensures
        is_next_pow2(n as int, r as int),
{
    let mut r: usize = 1;
    proof {
        vstd::arithmetic::power2::lemma2_to64();
        assert(vstd::arithmetic::power2::pow2(0) == 1);
    }
    while r < n
        invariant
            is_pow2(r as int),
            r == 1 || r < 2 * n,
            r >= 1,
            1 <= n <= usize::MAX / 2 + 1,
        decreases 2 * n - r,
    {
        proof {
            lemma_pow2_double(r as int);
        }
        r = r * 2;
    }
    r
}

/// A vector of `n` copies of `value`.
pub fn filled<T: Copy>(n: usize, value: T) -> (r: Vec<T>)
    ensures
        r@ == Seq::new(n as nat, |i: int| value),
{
    let mut r: Vec<T> = Vec::with_capacity(n);
    let mut i: usize = 0;
    while i < n
        invariant
            i <= n,
            r@ == Seq::new(i as nat, |j: int| value),
        decreases n - i,
    {
        r.push(value);
        i = i + 1;
    }
    r
}

/// The next power of two is the least one that is large enough.
pub proof fn law_next_pow2_least(n: int, r: int, other: int)
    requires
        1 <= n,
        is_next_pow2(n, r),
        is_pow2(other),
        n <= other,
    ensures
        is_pow2(r),
        n <= r <= other,
{
    let p = choose|p: nat| #[trigger] vstd::arithmetic::power2::pow2(p) == r;
    let q = choose|q: nat| #[trigger] vstd::arithmetic::power2::pow2(q) == other;
    vstd::arithmetic::power2::lemma_pow2_pos(q);
    if q < p {
        if q + 1 < p {
            vstd::arithmetic::power2::lemma_pow2_strictly_increases((q + 1) as nat, p);
        }
        vstd::arithmetic::power2::lemma_pow2_unfold((q + 1) as nat);
    } else if p < q {
        vstd::arithmetic::power2::lemma_pow2_strictly_increases(p, q);
    }
}

/// The larger and the smaller of two numbers.
pub proof fn law_min_max(a: int, b: int)
    ensures
        min(a, b) <= a && min(a, b) <= b && (min(a, b) == a || min(a, b) == b),
        max(a, b) >= a && max(a, b) >= b && (max(a, b) == a || max(a, b) == b),
{
}

} // verus!
