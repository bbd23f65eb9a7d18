//! What the stencil kernels share: the taps they read around a voxel, and the random numbers that
//! decide a stochastic rounding.

use crate::channel::Scalar;
use crate::multires::halo::HaloBlock;
use vstd::prelude::*;

verus! {

/// The values at the given offsets from cell `(x, y, z)`.
pub open spec fn taps<O, const BSX: usize, const HSX: usize>(
    halo: &HaloBlock<O, BSX, HSX>,
    x: int,
    y: int,
    z: int,
    offsets: Seq<(int, int, int)>,
) -> Seq<O> where O: Copy + Default {
    Seq::new(
        offsets.len(),
        |i: int| halo.at(x + offsets[i].0, y + offsets[i].1, z + offsets[i].2),
    )
}

/// The voxel and the six that share a face with it: left and right along x, then y, then z.
pub open spec fn face_offsets() -> Seq<(int, int, int)> {
    seq![
        (0int, 0int, 0int),
        (-1int, 0int, 0int),
        (1int, 0int, 0int),
        (0int, -1int, 0int),
        (0int, 1int, 0int),
        (0int, 0int, -1int),
        (0int, 0int, 1int),
    ]
}

/// The twelve voxels that share an edge with the voxel.
pub open spec fn edge_offsets() -> Seq<(int, int, int)> {
    seq![
        (1int, 1int, 0int),
        (1int, -1int, 0int),
        (-1int, 1int, 0int),
        (-1int, -1int, 0int),
        (1int, 0int, 1int),
        (1int, 0int, -1int),
        (-1int, 0int, 1int),
        (-1int, 0int, -1int),
        (0int, 1int, 1int),
        (0int, 1int, -1int),
        (0int, -1int, 1int),
        (0int, -1int, -1int),
    ]
}

/// The six voxels two steps away along an axis.
pub open spec fn far_offsets() -> Seq<(int, int, int)> {
    seq![
        (-2int, 0int, 0int),
        (2int, 0int, 0int),
        (0int, -2int, 0int),
        (0int, 2int, 0int),
        (0int, 0int, -2int),
        (0int, 0int, 2int),
    ]
}

/// A cube of smaller edge has fewer cells.
pub proof fn lemma_cube_le(a: int, b: int)
    requires
        0 <= a <= b,
    ensures
        a * a * a <= b * b * b,
{
    assert(a * a <= b * b) by (nonlinear_arith)
        requires
            0 <= a <= b,
    ;
    assert(a * a * a <= b * b * b) by (nonlinear_arith)
        requires
            0 <= a <= b,
            0 <= a * a <= b * b,
    ;
}

/// Product modulo `2^32`.
pub open spec fn times(a: u32, b: u32) -> u32 {
    ((a * b) % 0x1_0000_0000) as u32
}

/// The finalizer that scrambles a seed.
pub open spec fn scrambled(h0: u32) -> u32 {
    let h1 = h0 ^ (h0 >> 16u32);
    let h2 = times(h1, 0x85eb_ca6b);
    let h3 = h2 ^ (h2 >> 13u32);
    let h4 = times(h3, 0xc2b2_ae35);
    h4 ^ (h4 >> 16u32)
}

/// The state lane `i` starts from. It is never zero.
pub open spec fn lane_seed(seed: u32, i: u32) -> u32 {
    let h = scrambled(seed ^ times(i, 0x9e37_79b9));
    if h == 0 { 0xdead_beef } else { h }
}

/// The place of the highest bit of a positive `m`.
pub open spec fn top_bit(m: int) -> int
    decreases m,
{
    if m <= 1 {
        0
    } else {
        1 + top_bit(m / 2)
    }
}

/// The bit pattern of `m / 2^23` in single precision, for an `m` below `2^23`: zero for zero, else
/// the exponent that the highest bit of `m` gives, and the bits below it as the mantissa.
pub open spec fn fraction_bits(m: u32) -> u32 {
    if m == 0 {
        0
    } else {
        let k = top_bit(m as int);
        ((104 + k) * 0x80_0000 + (m * vstd::arithmetic::power2::pow2((23 - k) as nat)
            - 0x80_0000)) as u32
    }
}

proof fn lemma_top_bit(m: int, k: nat)
    requires
        vstd::arithmetic::power2::pow2(k) <= m < vstd::arithmetic::power2::pow2(k + 1),
    ensures
        top_bit(m) == k,
    decreases k,
{
    vstd::arithmetic::power2::lemma_pow2_unfold(k + 1);
    if k == 0 {
        vstd::arithmetic::power2::lemma2_to64();
    } else {
        vstd::arithmetic::power2::lemma_pow2_unfold(k);
        vstd::arithmetic::power2::lemma_pow2_pos((k - 1) as nat);
        lemma_top_bit(m / 2, (k - 1) as nat);
    }
}

/// The highest bit of `m` is at place `k` exactly if `2^k <= m < 2^(k+1)`.
pub proof fn law_top_bit(m: int)
    requires
        0 < m,
    ensures
        0 <= top_bit(m),
        vstd::arithmetic::power2::pow2(top_bit(m) as nat) <= m < vstd::arithmetic::power2::pow2(
            (top_bit(m) + 1) as nat,
        ),
    decreases m,
{
    if m == 1 {
        vstd::arithmetic::power2::lemma2_to64();
    } else {
        law_top_bit(m / 2);
        let k = top_bit(m / 2) as nat;
        vstd::arithmetic::power2::lemma_pow2_unfold(k + 1);
        vstd::arithmetic::power2::lemma_pow2_unfold(k + 2);
    }
}

/// `m` shifted up by `j` places so that its highest bit comes to place 23.
proof fn lemma_normalized(m: int, j: nat)
    requires
        0 < m,
        j <= 23,
        0x80_0000 <= m * vstd::arithmetic::power2::pow2(j) < 0x100_0000,
    ensures
        top_bit(m) == 23 - j,
{
    let p = vstd::arithmetic::power2::pow2(j) as int;
    let q = vstd::arithmetic::power2::pow2((23 - j) as nat) as int;
    vstd::arithmetic::power2::lemma2_to64();
    vstd::arithmetic::power2::lemma_pow2_adds((23 - j) as nat, j);
    vstd::arithmetic::power2::lemma_pow2_pos(j);
    vstd::arithmetic::power2::lemma_pow2_unfold((23 - j + 1) as nat);
    assert(q <= m < 2 * q) by (nonlinear_arith)
        requires
            q * p == 0x80_0000,
            0x80_0000 <= m * p < 0x100_0000,
            0 < p,
    ;
    lemma_top_bit(m, (23 - j) as nat);
}

/// The pattern stands for `m / 2^23`: exponent and mantissa, `2^23` and the mantissa bits times two to
/// the exponent less 127 and 23, give it exactly, and it lies in `[0, 1)`: the sign is clear and the
/// pattern below that of one.
pub proof fn law_fraction_exact(m: u32)
    requires
        m < 0x80_0000,
    ensures
        fraction_bits(m) < 0x3f80_0000,
        m == 0 <==> fraction_bits(m) == 0,
        0 < m ==> {
            let exponent = fraction_bits(m) as int / 0x80_0000;
            let mantissa = fraction_bits(m) as int % 0x80_0000;
            104 <= exponent && (0x80_0000 + mantissa) * vstd::arithmetic::power2::pow2(
                (exponent - 104) as nat,
            ) == m * 0x80_0000
        },
{
    if 0 < m {
        law_top_bit(m as int);
        let k = top_bit(m as int);
        vstd::arithmetic::power2::lemma2_to64();
        if k >= 23 {
            if k > 23 {
                vstd::arithmetic::power2::lemma_pow2_strictly_increases(23, k as nat);
            }
            assert(false);
        }
        let p = vstd::arithmetic::power2::pow2(k as nat) as int;
        let q = vstd::arithmetic::power2::pow2((23 - k) as nat) as int;
        vstd::arithmetic::power2::lemma_pow2_unfold((k + 1) as nat);
        vstd::arithmetic::power2::lemma_pow2_adds(k as nat, (23 - k) as nat);
        vstd::arithmetic::power2::lemma_pow2_pos((23 - k) as nat);
        assert(0x80_0000 <= m * q < 0x100_0000) by (nonlinear_arith)
            requires
                p <= m < 2 * p,
                p * q == 0x80_0000,
                0 < q,
        ;
        let f = m * q - 0x80_0000;
        assert(fraction_bits(m) == (104 + k) * 0x80_0000 + f);
        vstd::arithmetic::div_mod::lemma_fundamental_div_mod_converse(
            fraction_bits(m) as int,
            0x80_0000,
            104 + k,
            f,
        );
        assert((m * q) * p == m * 0x80_0000) by (nonlinear_arith)
            requires
                p * q == 0x80_0000,
        ;
    }
}

/// The bit pattern of `m / 2^23`.
fn fraction(m: u32) -> (r: u32)
    requires
        m < 0x80_0000,
    ensures
        r == fraction_bits(m),
{
    if m == 0 {
        return 0;
    }
    let mut s: u32 = m;
    let mut exponent: u32 = 127;
    let ghost mut j: nat = 0;
    proof {
        vstd::arithmetic::power2::lemma2_to64();
    }
    while s < 0x80_0000
        invariant
            0 < m < 0x80_0000,
            m <= s < 0x100_0000,
            j <= 23,
            exponent == 127 - j,
            s == m * vstd::arithmetic::power2::pow2(j),
            j == 0 ==> s == m,
        decreases 0x100_0000 - s,
    {
        proof {
            vstd::arithmetic::power2::lemma2_to64();
            vstd::arithmetic::power2::lemma_pow2_unfold(j + 1);
            let p = vstd::arithmetic::power2::pow2(j) as int;
            if j == 23 {
                assert(m * p >= 0x80_0000) by (nonlinear_arith)
                    requires
                        1 <= m,
                        p == 0x80_0000,
                ;
            }
            assert(m * (2 * p) == 2 * (m * p)) by (nonlinear_arith);
            j = j + 1;
        }
        s = 2 * s;
        exponent = exponent - 1;
    }
    proof {
        lemma_normalized(m as int, j);
    }
    exponent * 0x80_0000 + (s - 0x80_0000)
}

/// The state that follows `s`.
pub open spec fn stepped(s: u32) -> u32 {
    times(s, 16807)
}

/// The bit pattern of the number that state `s` gives.
pub open spec fn drawn(s: u32) -> u32 {
    fraction_bits(s >> 9u32)
}

/// `W` linear congruential generators side by side, seeded from one number.
pub struct SimdRng<const W: usize> {
    pub state: [u32; W],
}

impl<const W: usize> SimdRng<W> {
    /// No lane is stuck at zero.
    pub open spec fn wf(&self) -> bool {
        forall|i: int| 0 <= i < W ==> #[trigger] self.state@[i] != 0
    }

    /// Seeds each lane from `seed` and the number of the lane.
    pub fn seed(seed: u32) -> (r: Self)
        requires
            W <= u32::MAX,
        ensures
            r.wf(),
            forall|i: int| 0 <= i < W ==> #[trigger] r.state@[i] == lane_seed(seed, i as u32),
    {
        let mut state: [u32; W] = [0; W];
        let mut i: usize = 0;
        while i < W
            invariant
                i <= W <= u32::MAX,
                forall|j: int| 0 <= j < i ==> #[trigger] state@[j] == lane_seed(seed, j as u32),
            decreases W - i,
        {
            let mut h: u32 = seed ^ (i as u32).wrapping_mul(0x9e37_79b9);
            h = h ^ (h >> 16u32);
            h = h.wrapping_mul(0x85eb_ca6b);
            h = h ^ (h >> 13u32);
            h = h.wrapping_mul(0xc2b2_ae35);
            h = h ^ (h >> 16u32);
            state[i] = if h == 0 { 0xdead_beef } else { h };
            i = i + 1;
        }
        SimdRng { state }
    }

    /// Advances every lane, and gives for each a number that is uniform in `[0, 1)`: the upper 23 bits
    /// of the state over `2^23`.
    pub fn next(&mut self) -> (r: [Scalar; W])
        requires
            old(self).wf(),
        ensures
            final(self).wf(),
            forall|i: int|
                0 <= i < W ==> #[trigger] final(self).state@[i] == stepped(old(self).state@[i]),
            forall|i: int|
                0 <= i < W ==> #[trigger] r@[i] == Scalar(drawn(final(self).state@[i])),
    {
        let mut r: [Scalar; W] = [Scalar(0); W];
        let mut i: usize = 0;
        while i < W
            invariant
                i <= W,
                old(self).wf(),
                forall|j: int|
                    0 <= j < i ==> #[trigger] self.state@[j] == stepped(old(self).state@[j]),
                forall|j: int| i <= j < W ==> #[trigger] self.state@[j] == old(self).state@[j],
                forall|j: int|
                    0 <= j < i ==> #[trigger] r@[j] == Scalar(drawn(self.state@[j])),
                forall|j: int| 0 <= j < i ==> #[trigger] self.state@[j] != 0,
            decreases W - i,
        {
            proof {
                lemma_step_nonzero(self.state@[i as int]);
            }
            let s: u32 = self.state[i].wrapping_mul(16807);
            self.state[i] = s;
            assert(s >> 9u32 < 0x80_0000) by (bit_vector);
            r[i] = Scalar(fraction(s >> 9u32));
            i = i + 1;
        }
        r
    }
}

/// The seed for the generator of worker `i`.
pub open spec fn seed_of_worker(i: u32) -> u32 {
    times(i, 0x9e37_79b9) ^ 0xdead_beef
}

/// The seed for the generator of worker `i`.
pub fn worker_seed(i: u32) -> (r: u32)
    ensures
        r == seed_of_worker(i),
{
    i.wrapping_mul(0x9e37_79b9) ^ 0xdead_beef
}

/// No two workers have the same seed.
pub proof fn law_worker_seeds_distinct(a: u32, b: u32)
    requires
        seed_of_worker(a) == seed_of_worker(b),
    ensures
        a == b,
{
    let (x, y) = (times(a, 0x9e37_79b9), times(b, 0x9e37_79b9));
    assert(x ^ 0xdead_beefu32 == y ^ 0xdead_beefu32 ==> x == y) by (bit_vector);
    lemma_times_undone(a, 0x9e37_79b9, 0x144c_bc89);
    lemma_times_undone(b, 0x9e37_79b9, 0x144c_bc89);
}

proof fn lemma_step_nonzero(s: u32)
    requires
        s != 0,
    ensures
        times(s, 16807) != 0,
{
    lemma_times_undone(s, 16807, 0x4c34_5617);
}

/// Multiplying by an odd number can be undone.
proof fn lemma_times_undone(x: u32, c: u32, d: u32)
    requires
        (c * d) % 0x1_0000_0000 == 1,
    ensures
        times(times(x, c), d) == x,
{
    let m: int = 0x1_0000_0000;
    let (xi, ci, di) = (x as int, c as int, d as int);
    vstd::arithmetic::div_mod::lemma_mul_mod_noop_left(xi * ci, di, m);
    assert(xi * ci * di == xi * (ci * di)) by (nonlinear_arith);
    vstd::arithmetic::div_mod::lemma_mul_mod_noop_right(xi, ci * di, m);
    assert((xi * 1) % m == xi);
}

/// Every number that is drawn lies in `[0, 1)`: its bit pattern is below that of one, and is that of
/// the upper 23 bits of the state over `2^23`.
pub proof fn law_unit_range(state: u32)
    ensures
        state >> 9u32 < 0x80_0000,
        fraction_bits(state >> 9u32) < 0x3f80_0000,
{
    assert(state >> 9u32 < 0x80_0000) by (bit_vector);
    law_fraction_exact(state >> 9u32);
}

/// No two seeds scramble to the same state.
pub proof fn law_scramble_injective(a: u32, b: u32)
    requires
        scrambled(a) == scrambled(b),
    ensures
        a == b,
{
    let (a1, b1) = (a ^ (a >> 16u32), b ^ (b >> 16u32));
    let (a2, b2) = (times(a1, 0x85eb_ca6b), times(b1, 0x85eb_ca6b));
    let (a3, b3) = (a2 ^ (a2 >> 13u32), b2 ^ (b2 >> 13u32));
    let (a4, b4) = (times(a3, 0xc2b2_ae35), times(b3, 0xc2b2_ae35));
    lemma_shift16_injective(a4, b4);
    lemma_times_undone(a3, 0xc2b2_ae35, 0x7ed1_b41d);
    lemma_times_undone(b3, 0xc2b2_ae35, 0x7ed1_b41d);
    assert(a2 ^ (a2 >> 13u32) == b2 ^ (b2 >> 13u32) ==> a2 == b2) by (bit_vector);
    lemma_times_undone(a1, 0x85eb_ca6b, 0xa5cb_9243);
    lemma_times_undone(b1, 0x85eb_ca6b, 0xa5cb_9243);
    lemma_shift16_injective(a, b);
}

proof fn lemma_shift16_injective(a: u32, b: u32)
    requires
        a ^ (a >> 16u32) == b ^ (b >> 16u32),
    ensures
        a == b,
{
    assert(a ^ (a >> 16u32) == b ^ (b >> 16u32) ==> a == b) by (bit_vector);
}

/// Distinct seeds start every lane from distinct states, but for the one state that stands in for
/// zero.
pub proof fn law_seeds_differ(s: u32, t: u32, i: u32)
    requires
        s != t,
        lane_seed(s, i) == lane_seed(t, i),
    ensures
        lane_seed(s, i) == 0xdead_beef,
{
    let k = times(i, 0x9e37_79b9);
    assert(s ^ k == t ^ k ==> s == t) by (bit_vector);
    if scrambled(s ^ k) == scrambled(t ^ k) {
        law_scramble_injective(s ^ k, t ^ k);
    }
}

/// The indices of the voxels around cell `(x, y, z)` of a cube of edge `h`, by the step along each
/// axis: one along x, a row along y, a layer along z.
pub proof fn lemma_steps(x: int, y: int, z: int, h: int)
    ensures
        forall|dx: int, dy: int, dz: int|
            -2 <= dx <= 2 && -2 <= dy <= 2 && -2 <= dz <= 2 ==> #[trigger] crate::layout::index3(
                x + dx,
                y + dy,
                z + dz,
                h,
                h,
            ) == x + h * y + h * h * z + dx + dy * h + dz * (h * h),
{
    assert forall|dx: int, dy: int, dz: int|
        -2 <= dx <= 2 && -2 <= dy <= 2 && -2 <= dz <= 2 implies #[trigger] crate::layout::index3(
        x + dx,
        y + dy,
        z + dz,
        h,
        h,
    ) == x + h * y + h * h * z + dx + dy * h + dz * (h * h) by {
        assert((y + dy) * h == h * y + dy * h && (z + dz) * (h * h) == h * h * z + dz * (h * h))
            by (nonlinear_arith);
    }
}

/// `d` steps of `h`, for up to two steps either way.
pub open spec fn steps(d: int, h: int) -> int {
    if d == 0 {
        0
    } else if d == 1 {
        h
    } else if d == -1 {
        -h
    } else if d == 2 {
        2 * h
    } else {
        -2 * h
    }
}

/// The taps are read at the given steps from the cell, one by one.
pub proof fn lemma_tap<O, const BSX: usize, const HSX: usize>(
    halo: &HaloBlock<O, BSX, HSX>,
    x: int,
    y: int,
    z: int,
    offsets: Seq<(int, int, int)>,
    k: int,
) where O: Copy + Default
    requires
        0 <= k < offsets.len(),
        -2 <= offsets[k].0 <= 2,
        -2 <= offsets[k].1 <= 2,
        -2 <= offsets[k].2 <= 2,
    ensures
        ({
            let h = HSX as int;
            let i = x + h * y + h * h * z;
            taps(halo, x, y, z, offsets)[k] == halo.data@[i + offsets[k].0 + steps(
                offsets[k].1,
                h,
            ) + steps(offsets[k].2, h * h)]
        }),
{
    let h = HSX as int;
    lemma_steps(x, y, z, h);
    let (dy, dz) = (offsets[k].1, offsets[k].2);
    assert(dy * h == steps(dy, h)) by (nonlinear_arith)
        requires
            -2 <= dy <= 2,
    ;
    let l = h * h;
    assert(dz * l == steps(dz, l)) by (nonlinear_arith)
        requires
            -2 <= dz <= 2,
    ;
}

/// The product is that of the integers, less a multiple of `2^32`.
pub proof fn law_times_wraps(a: u32, b: u32) -> (k: int)
    ensures
        a * b == times(a, b) + 0x1_0000_0000 * k,
{
    let p = a * b;
    assert(0 <= p) by (nonlinear_arith)
        requires
            p == a * b,
    ;
    vstd::arithmetic::div_mod::lemma_fundamental_div_mod(p, 0x1_0000_0000);
    p / 0x1_0000_0000
}

/// The pattern orders as the number does: of two fractions the greater has the greater pattern.
pub proof fn law_fraction_increases(m: u32, n: u32)
    requires
        m < n < 0x80_0000,
    ensures
        fraction_bits(m) < fraction_bits(n),
{
    law_fraction_exact(m);
    law_fraction_exact(n);
    if 0 < m {
        let (em, fm) = (fraction_bits(m) as int / 0x80_0000, fraction_bits(m) as int % 0x80_0000);
        let (en, fn_) = (fraction_bits(n) as int / 0x80_0000, fraction_bits(n) as int % 0x80_0000);
        let p = vstd::arithmetic::power2::pow2((em - 104) as nat) as int;
        let q = vstd::arithmetic::power2::pow2((en - 104) as nat) as int;
        vstd::arithmetic::power2::lemma_pow2_pos((em - 104) as nat);
        vstd::arithmetic::power2::lemma_pow2_pos((en - 104) as nat);
        if en < em {
            vstd::arithmetic::power2::lemma_pow2_unfold((en - 104 + 1) as nat);
            if en + 1 < em {
                vstd::arithmetic::power2::lemma_pow2_strictly_increases(
                    (en - 104 + 1) as nat,
                    (em - 104) as nat,
                );
            }
            assert(2 * q <= p);
            assert((0x80_0000 + fm) * p >= (0x80_0000 + fn_) * q) by (nonlinear_arith)
                requires
                    2 * q <= p,
                    0 < q,
                    0 <= fm,
                    0 <= fn_ < 0x80_0000,
            ;
        } else if en == em {
            assert(fm < fn_) by (nonlinear_arith)
                requires
                    (0x80_0000 + fm) * p < (0x80_0000 + fn_) * p,
                    0 < p,
            ;
        }
    }
}

/// Undoes the finalizer: the steps in reverse, each product by the inverse of its factor.
pub open spec fn unscrambled(h: u32) -> u32 {
    let h4 = h ^ (h >> 16u32);
    let h3 = times(h4, 0x7ed1_b41d);
    let h2 = h3 ^ (h3 >> 13u32) ^ (h3 >> 26u32);
    let h1 = times(h2, 0xa5cb_9243);
    h1 ^ (h1 >> 16u32)
}

/// The seed can be told from what it is scrambled to.
pub proof fn law_scramble_undone(h0: u32)
    ensures
        unscrambled(scrambled(h0)) == h0,
{
    let h1 = h0 ^ (h0 >> 16u32);
    let h2 = times(h1, 0x85eb_ca6b);
    let h3 = h2 ^ (h2 >> 13u32);
    let h4 = times(h3, 0xc2b2_ae35);
    lemma_shift16_undone(h4);
    lemma_times_undone(h3, 0xc2b2_ae35, 0x7ed1_b41d);
    assert(h3 ^ (h3 >> 13u32) ^ (h3 >> 26u32) == h2) by (bit_vector)
        requires
            h3 == h2 ^ (h2 >> 13u32),
    ;
    lemma_times_undone(h1, 0x85eb_ca6b, 0xa5cb_9243);
    lemma_shift16_undone(h0);
}

proof fn lemma_shift16_undone(h: u32)
    ensures
        (h ^ (h >> 16u32)) ^ ((h ^ (h >> 16u32)) >> 16u32) == h,
{
    assert((h ^ (h >> 16u32)) ^ ((h ^ (h >> 16u32)) >> 16u32) == h) by (bit_vector);
}

/// Seed and number of a lane can be told from the state it starts from, but for the one state that
/// stands in for zero: unscrambled, it differs from the seed by a multiple that gives the number.
pub proof fn law_lane_seed_undone(seed: u32, i: u32)
    ensures
        lane_seed(seed, i) != 0,
        lane_seed(seed, i) != 0xdead_beef ==> times(unscrambled(lane_seed(seed, i)) ^ seed, 0x144c_bc89)
            == i,
        lane_seed(seed, i) != 0xdead_beef && i == 0 ==> unscrambled(lane_seed(seed, i)) == seed,
{
    let k = times(i, 0x9e37_79b9);
    law_scramble_undone(seed ^ k);
    assert((seed ^ k) ^ seed == k) by (bit_vector);
    lemma_times_undone(i, 0x9e37_79b9, 0x144c_bc89);
    if i == 0 {
        assert(k == 0);
        assert(seed ^ 0u32 == seed) by (bit_vector);
    }
}

/// The number of a worker can be told from its seed.
pub proof fn law_worker_seed_undone(i: u32)
    ensures
        times(seed_of_worker(i) ^ 0xdead_beef, 0x144c_bc89) == i,
        seed_of_worker(0) == 0xdead_beef,
{
    let k = times(i, 0x9e37_79b9);
    assert((k ^ 0xdead_beefu32) ^ 0xdead_beefu32 == k) by (bit_vector);
    lemma_times_undone(i, 0x9e37_79b9, 0x144c_bc89);
    assert(0u32 ^ 0xdead_beefu32 == 0xdead_beefu32) by (bit_vector);
}

/// A step is a product that can be undone, and steps of two states add up, modulo `2^32`.
pub proof fn law_step(a: u32, b: u32)
    ensures
        times(stepped(a), 0x4c34_5617) == a,
        stepped(1) == 16807,
        a + b <= u32::MAX ==> stepped((a + b) as u32) == (stepped(a) + stepped(b)) % 0x1_0000_0000,
{
    lemma_times_undone(a, 16807, 0x4c34_5617);
    if a + b <= u32::MAX {
        let m: int = 0x1_0000_0000;
        assert((a + b) * 16807 == a * 16807 + b * 16807) by (nonlinear_arith);
        vstd::arithmetic::div_mod::lemma_add_mod_noop(a * 16807, b * 16807, m);
    }
}

/// A number that is drawn is the state over `2^32`, rounded down to a multiple of `2^-23`: exponent
/// and mantissa of the pattern give the upper 23 bits of the state.
pub proof fn law_drawn_from_state(s: u32)
    ensures
        drawn(s) < 0x3f80_0000,
        s < 512 <==> drawn(s) == 0,
        512 <= s ==> {
            let exponent = drawn(s) as int / 0x80_0000;
            let mantissa = drawn(s) as int % 0x80_0000;
            104 <= exponent && (0x80_0000 + mantissa) * vstd::arithmetic::power2::pow2(
                (exponent - 104) as nat,
            ) == (s / 512) * 0x80_0000
        },
{
    assert(s >> 9u32 == s / 512 && s >> 9u32 < 0x80_0000) by (bit_vector);
    law_fraction_exact(s >> 9u32);
}

} // verus!
