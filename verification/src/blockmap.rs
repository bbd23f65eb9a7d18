//! Sparse map keyed by block id: open addressing with linear probing.
//!
//! The cost of a lookup follows the number of *active* blocks, not the number of *virtual* ones.
//! Keys and values stand in two parallel arrays, so that a probe walks key slots only. The
//! capacity is a power of two, at most three quarters of it are in use, and a removed entry leaves
//! a tombstone that the next growth clears.

use vstd::prelude::*;

verus! {

/// Vacant slot: no entry, and the end of a probe chain.
pub const EMPTY: usize = usize::MAX;

/// Deleted slot: the entry is gone, and probe chains continue past it.
pub const TOMBSTONE: usize = usize::MAX - 1;

/// The multiplier of the slot hash. It is odd.
pub const MIX: u64 = 0x9e37_79b9_7f4a_7c15;

/// `key` can be stored: it is none of the two slot markers.
pub open spec fn valid_key(key: usize) -> bool {
    key < TOMBSTONE
}

/// The slot at which the probe for `key` starts in a table of `cap` slots.
pub open spec fn home(key: int, cap: int) -> int {
    (key * MIX) % cap
}

/// A table of `cap` slots, eight bytes a key, can be allocated.
pub open spec fn fits(cap: int) -> bool {
    8 * cap <= isize::MAX
}

/// A map can hold all keys below `n`, whatever its table has grown to by then.
pub open spec fn ids_fit(n: int) -> bool {
    64 * n <= isize::MAX
}

/// How many slots may be in use before the table grows.
pub open spec fn threshold(cap: int) -> int {
    cap * 3 / 4
}

/// `s` lists the entries of `m`, each key once, in some order.
pub open spec fn lists_entries<V>(s: Seq<(usize, V)>, m: Map<usize, V>) -> bool {
    &&& forall|i: int|
        0 <= i < s.len() ==> #[trigger] m.contains_key(s[i].0) && m[s[i].0] == s[i].1
    &&& forall|k: usize| #[trigger]
        m.contains_key(k) ==> exists|i: int| 0 <= i < s.len() && (#[trigger] s[i]).0 == k
    &&& forall|i: int, j: int|
        0 <= i < s.len() && 0 <= j < s.len() && (#[trigger] s[i]).0 == (#[trigger] s[j]).0 ==> i == j
}

/// The ids below `n`.
pub open spec fn ids_below(n: int) -> Set<usize> {
    Set::new(|k: usize| k < n)
}

pub(crate) proof fn lemma_ids_below(n: int)
    requires
        0 <= n <= usize::MAX,
    ensures
        ids_below(n).finite(),
        ids_below(n).len() == n,
    decreases n,
{
    if n == 0 {
        assert(ids_below(n) =~= Set::<usize>::empty());
    } else {
        lemma_ids_below(n - 1);
        assert(ids_below(n) =~= ids_below(n - 1).insert((n - 1) as usize));
    }
}

/// How many probe steps lie from slot `h` to slot `i`.
spec fn dist(h: int, i: int, cap: int) -> int {
    if i >= h { i - h } else { i + cap - h }
}

/// What a slot is: 0 vacant, 1 deleted, 2 an entry.
spec fn class(k: usize) -> int {
    if k == EMPTY {
        0
    } else if k == TOMBSTONE {
        1
    } else {
        2
    }
}

/// How many slots are of class `c`.
spec fn count(s: Seq<usize>, c: int) -> nat
    decreases s.len(),
{
    if s.len() == 0 {
        0
    } else {
        count(s.drop_last(), c) + if class(s.last()) == c { 1nat } else { 0nat }
    }
}

/// The keys that stand in slots.
spec fn key_set(s: Seq<usize>) -> Set<usize> {
    Set::new(|k: usize| valid_key(k) && s.contains(k))
}

spec fn distinct(s: Seq<usize>) -> bool {
    forall|i: int, j: int|
        0 <= i < s.len() && 0 <= j < s.len() && valid_key(#[trigger] s[i]) && s[i]
            == #[trigger] s[j] ==> i == j
}

/// No vacant slot lies on the way from a key's home to its slot.
spec fn reachable(s: Seq<usize>) -> bool {
    forall|i: int, m: int|
        0 <= i < s.len() && 0 <= m < s.len() && valid_key(#[trigger] s[i]) && dist(
            home(s[i] as int, s.len() as int),
            m,
            s.len() as int,
        ) < dist(home(s[i] as int, s.len() as int), i, s.len() as int) ==> #[trigger] s[m] != EMPTY
}

spec fn index_of(s: Seq<usize>, k: usize) -> int {
    choose|i: int| 0 <= i < s.len() && #[trigger] s[i] == k
}

spec fn map_of<V>(keys: Seq<usize>, vals: Seq<Option<V>>) -> Map<usize, V> {
    Map::new(|k: usize| key_set(keys).contains(k), |k: usize| vals[index_of(keys, k)].unwrap())
}

proof fn lemma_count_total(s: Seq<usize>)
    ensures
        count(s, 0) + count(s, 1) + count(s, 2) == s.len(),
    decreases s.len(),
{
    if s.len() > 0 {
        lemma_count_total(s.drop_last());
    }
}

proof fn lemma_count_zero(s: Seq<usize>, c: int)
    requires
        forall|i: int| 0 <= i < s.len() ==> class(#[trigger] s[i]) != c,
    ensures
        count(s, c) == 0,
    decreases s.len(),
{
    if s.len() > 0 {
        lemma_count_zero(s.drop_last(), c);
    }
}

proof fn lemma_count_fill(s: Seq<usize>, k: usize)
    requires
        forall|i: int| 0 <= i < s.len() ==> #[trigger] s[i] == k,
    ensures
        count(s, class(k)) == s.len(),
    decreases s.len(),
{
    if s.len() > 0 {
        lemma_count_fill(s.drop_last(), k);
    }
}

proof fn lemma_count_update(s: Seq<usize>, i: int, k: usize, c: int)
    requires
        0 <= i < s.len(),
    ensures
        count(s.update(i, k), c) + (if class(s[i]) == c { 1int } else { 0 }) == count(s, c) + (if class(k) == c {
            1int
        } else {
            0
        }),
    decreases s.len(),
{
    if i == s.len() - 1 {
        assert(s.update(i, k).drop_last() =~= s.drop_last());
    } else {
        assert(s.update(i, k).drop_last() =~= s.drop_last().update(i, k));
        lemma_count_update(s.drop_last(), i, k, c);
    }
}

proof fn lemma_count_take(s: Seq<usize>, n: int, c: int)
    requires
        0 <= n < s.len(),
    ensures
        count(s.take(n + 1), c) == count(s.take(n), c) + (if class(s[n]) == c { 1int } else { 0 }),
        count(s.take(n), c) <= count(s.take(n + 1), c) <= count(s, c),
    decreases s.len() - n,
{
    assert(s.take(n + 1).drop_last() =~= s.take(n));
    if n + 1 < s.len() {
        lemma_count_take(s, n + 1, c);
    } else {
        assert(s.take(n + 1) =~= s);
    }
}

proof fn lemma_key_set(s: Seq<usize>)
    requires
        distinct(s),
    ensures
        key_set(s).finite(),
        key_set(s).len() == count(s, 2),
    decreases s.len(),
{
    if s.len() == 0 {
        assert(key_set(s) =~= Set::<usize>::empty());
    } else {
        let r = s.drop_last();
        let k = s.last();
        assert(distinct(r)) by {
            assert forall|i: int, j: int|
                0 <= i < r.len() && 0 <= j < r.len() && valid_key(#[trigger] r[i]) && r[i]
                    == #[trigger] r[j] implies i == j by {
                assert(s[i] == r[i] && s[j] == r[j]);
            }
        }
        lemma_key_set(r);
        assert(s[s.len() - 1] == k);
        if valid_key(k) {
            assert(key_set(s) =~= key_set(r).insert(k)) by {
                assert forall|q: usize| key_set(s).contains(q) == key_set(r).insert(k).contains(q) by {
                    if key_set(s).contains(q) {
                        let i = choose|i: int| 0 <= i < s.len() && s[i] == q;
                        if i < r.len() {
                            assert(r[i] == q);
                        }
                    }
                    if key_set(r).contains(q) {
                        let i = choose|i: int| 0 <= i < r.len() && r[i] == q;
                        assert(s[i] == q);
                    }
                }
            }
            assert(!key_set(r).contains(k)) by {
                if r.contains(k) {
                    let i = choose|i: int| 0 <= i < r.len() && r[i] == k;
                    assert(s[i] == k);
                }
            }
        } else {
            assert(key_set(s) =~= key_set(r)) by {
                assert forall|q: usize| key_set(s).contains(q) == key_set(r).contains(q) by {
                    if key_set(s).contains(q) {
                        let i = choose|i: int| 0 <= i < s.len() && s[i] == q;
                        assert(r[i] == q);
                    }
                    if key_set(r).contains(q) {
                        let i = choose|i: int| 0 <= i < r.len() && r[i] == q;
                        assert(s[i] == q);
                    }
                }
            }
        }
    }
}

/// What `map_of` holds at a slot with an entry.
proof fn lemma_map_at<V>(keys: Seq<usize>, vals: Seq<Option<V>>, i: int)
    requires
        distinct(keys),
        0 <= i < keys.len(),
        valid_key(keys[i]),
    ensures
        map_of(keys, vals).contains_key(keys[i]),
        map_of(keys, vals)[keys[i]] == vals[i].unwrap(),
{
    let k = keys[i];
    assert(keys.contains(k));
    let j = index_of(keys, k);
    assert(0 <= j < keys.len() && keys[j] == k);
}

proof fn lemma_map_slot<V>(keys: Seq<usize>, vals: Seq<Option<V>>, k: usize) -> (i: int)
    requires
        distinct(keys),
        map_of(keys, vals).contains_key(k),
    ensures
        0 <= i < keys.len(),
        keys[i] == k,
        valid_key(k),
        map_of(keys, vals)[k] == vals[i].unwrap(),
{
    assert(keys.contains(k));
    index_of(keys, k)
}

/// Writing an entry for an absent key into a slot without an entry.
proof fn lemma_map_place<V>(keys: Seq<usize>, vals: Seq<Option<V>>, i: int, k: usize, v: V)
    requires
        distinct(keys),
        keys.len() == vals.len(),
        0 <= i < keys.len(),
        !valid_key(keys[i]),
        valid_key(k),
        !keys.contains(k),
    ensures
        distinct(keys.update(i, k)),
        map_of(keys.update(i, k), vals.update(i, Some(v))) == map_of(keys, vals).insert(k, v),
{
    let nk = keys.update(i, k);
    let nv = vals.update(i, Some(v));
    assert forall|a: int, b: int|
        0 <= a < nk.len() && 0 <= b < nk.len() && valid_key(#[trigger] nk[a]) && nk[a]
            == #[trigger] nk[b] implies a == b by {
        if a != i {
            assert(nk[a] == keys[a]);
        }
        if b != i {
            assert(nk[b] == keys[b]);
        }
    }
    let m1 = map_of(nk, nv);
    let m2 = map_of(keys, vals).insert(k, v);
    assert(nk[i] == k);
    lemma_map_at(nk, nv, i);
    assert forall|q: usize| m1.contains_key(q) == m2.contains_key(q) by {
        if m1.contains_key(q) {
            let a = lemma_map_slot(nk, nv, q);
            if a != i {
                assert(keys[a] == q);
            }
        }
        if map_of(keys, vals).contains_key(q) {
            let a = lemma_map_slot(keys, vals, q);
            assert(nk[a] == q);
        }
    }
    assert forall|q: usize| m1.contains_key(q) implies m1[q] == m2[q] by {
        let a = lemma_map_slot(nk, nv, q);
        if a != i {
            assert(keys[a] == q);
            lemma_map_at(keys, vals, a);
        }
    }
    assert(m1 =~= m2);
}

/// Overwriting the value of an entry.
proof fn lemma_map_overwrite<V>(keys: Seq<usize>, vals: Seq<Option<V>>, i: int, v: V)
    requires
        distinct(keys),
        keys.len() == vals.len(),
        0 <= i < keys.len(),
        valid_key(keys[i]),
    ensures
        map_of(keys, vals.update(i, Some(v))) == map_of(keys, vals).insert(keys[i], v),
{
    let nv = vals.update(i, Some(v));
    let m1 = map_of(keys, nv);
    let m2 = map_of(keys, vals).insert(keys[i], v);
    lemma_map_at(keys, nv, i);
    lemma_map_at(keys, vals, i);
    assert forall|q: usize| m1.contains_key(q) implies m1[q] == m2[q] by {
        let a = lemma_map_slot(keys, nv, q);
        lemma_map_at(keys, vals, a);
    }
    assert(m1 =~= m2);
}

/// Turning an entry into a tombstone.
proof fn lemma_map_delete<V>(keys: Seq<usize>, vals: Seq<Option<V>>, i: int)
    requires
        distinct(keys),
        keys.len() == vals.len(),
        0 <= i < keys.len(),
        valid_key(keys[i]),
    ensures
        distinct(keys.update(i, TOMBSTONE)),
        map_of(keys.update(i, TOMBSTONE), vals) == map_of(keys, vals).remove(keys[i]),
{
    let nk = keys.update(i, TOMBSTONE);
    assert forall|a: int, b: int|
        0 <= a < nk.len() && 0 <= b < nk.len() && valid_key(#[trigger] nk[a]) && nk[a]
            == #[trigger] nk[b] implies a == b by {
        assert(a != i && b != i);
        assert(nk[a] == keys[a] && nk[b] == keys[b]);
    }
    let m1 = map_of(nk, vals);
    let m2 = map_of(keys, vals).remove(keys[i]);
    assert forall|q: usize| m1.contains_key(q) == m2.contains_key(q) by {
        if m1.contains_key(q) {
            let a = lemma_map_slot(nk, vals, q);
            assert(a != i && keys[a] == q);
            lemma_map_at(keys, vals, a);
        }
        if m2.contains_key(q) {
            let a = lemma_map_slot(keys, vals, q);
            assert(a != i);
            assert(nk[a] == q);
        }
    }
    assert forall|q: usize| m1.contains_key(q) implies m1[q] == m2[q] by {
        let a = lemma_map_slot(nk, vals, q);
        assert(keys[a] == q);
        lemma_map_at(keys, vals, a);
    }
    assert(m1 =~= m2);
}

/// One more slot of the table taken into the map.
proof fn lemma_map_take<V>(keys: Seq<usize>, vals: Seq<Option<V>>, n: int)
    requires
        distinct(keys),
        keys.len() == vals.len(),
        0 <= n < keys.len(),
        forall|i: int| 0 <= i < keys.len() && valid_key(#[trigger] keys[i]) ==> vals[i] is Some,
    ensures
        distinct(keys.take(n)),
        distinct(keys.take(n + 1)),
        valid_key(keys[n]) ==> map_of(keys.take(n + 1), vals.take(n + 1)) == map_of(
            keys.take(n),
            vals.take(n),
        ).insert(keys[n], vals[n].unwrap()) && !keys.take(n).contains(keys[n]),
        !valid_key(keys[n]) ==> map_of(keys.take(n + 1), vals.take(n + 1)) == map_of(
            keys.take(n),
            vals.take(n),
        ),
{
    let k0 = keys.take(n);
    let v0 = vals.take(n);
    let k1 = keys.take(n + 1);
    let v1 = vals.take(n + 1);
    assert forall|a: int, b: int|
        0 <= a < k1.len() && 0 <= b < k1.len() && valid_key(#[trigger] k1[a]) && k1[a]
            == #[trigger] k1[b] implies a == b by {
        assert(k1[a] == keys[a] && k1[b] == keys[b]);
    }
    assert forall|a: int, b: int|
        0 <= a < k0.len() && 0 <= b < k0.len() && valid_key(#[trigger] k0[a]) && k0[a]
            == #[trigger] k0[b] implies a == b by {
        assert(k0[a] == keys[a] && k0[b] == keys[b]);
    }
    if valid_key(keys[n]) {
        if k0.contains(keys[n]) {
            let a = choose|a: int| 0 <= a < k0.len() && k0[a] == keys[n];
            assert(keys[a] == keys[n]);
        }
    }
    let m1 = map_of(k1, v1);
    let m0 = map_of(k0, v0);
    let m2 = if valid_key(keys[n]) { m0.insert(keys[n], vals[n].unwrap()) } else { m0 };
    assert(k1[n] == keys[n]);
    if valid_key(keys[n]) {
        lemma_map_at(k1, v1, n);
    }
    assert forall|q: usize| m1.contains_key(q) == m2.contains_key(q) by {
        if m1.contains_key(q) {
            let a = lemma_map_slot(k1, v1, q);
            if a < n {
                assert(k0[a] == q);
            }
        }
        if m0.contains_key(q) {
            let a = lemma_map_slot(k0, v0, q);
            assert(k1[a] == q);
        }
    }
    assert forall|q: usize| m1.contains_key(q) implies m1[q] == m2[q] by {
        let a = lemma_map_slot(k1, v1, q);
        if a < n {
            assert(k0[a] == q);
            lemma_map_at(k0, v0, a);
            assert(v0[a] == v1[a]);
        }
    }
    assert(m1 =~= m2);
}

/// A table that is not full has a vacant slot.
proof fn lemma_has_vacant(s: Seq<usize>) -> (e: int)
    requires
        count(s, 1) + count(s, 2) < s.len(),
    ensures
        0 <= e < s.len(),
        s[e] == EMPTY,
{
    lemma_count_total(s);
    if forall|i: int| 0 <= i < s.len() ==> class(#[trigger] s[i]) != 0 {
        lemma_count_zero(s, 0);
    }
    choose|e: int| 0 <= e < s.len() && class(#[trigger] s[e]) == 0
}

/// Multiplicative hash: one multiplication by an odd constant, modulo 2^64.
fn mix(key: usize) -> (r: usize)
    ensures
        r == (((key as u64) * MIX) % 0x1_0000_0000_0000_0000) as u64 as usize,
{
    (key as u64).wrapping_mul(MIX) as usize
}

/// Open-addressing map from block ids to copyable values.
pub struct BlockMap<V: Copy> {
    keys: Vec<usize>,
    vals: Vec<Option<V>>,
    len: usize,
    tombstones: usize,
    mask: usize,
}

/// A sparse set of block ids, where only membership matters.
pub type BlockSet = BlockMap<()>;

impl<V: Copy> View for BlockMap<V> {
    type V = Map<usize, V>;

    closed spec fn view(&self) -> Map<usize, V> {
        map_of(self.keys@, self.vals@)
    }
}

impl<V: Copy> BlockMap<V> {
    /// The invariant of the table.
    pub closed spec fn wf(&self) -> bool {
        let cap = self.keys@.len() as int;
        &&& crate::arith::is_pow2(cap)
        &&& 4 <= cap
        &&& fits(cap)
        &&& self.vals@.len() == cap
        &&& self.mask == cap - 1
        &&& self.len == count(self.keys@, 2)
        &&& self.tombstones == count(self.keys@, 1)
        &&& self.len + self.tombstones <= threshold(cap)
        &&& distinct(self.keys@)
        &&& reachable(self.keys@)
        &&& forall|i: int|
            0 <= i < cap && valid_key(#[trigger] self.keys@[i]) ==> self.vals@[i] is Some
    }

    /// How many slots the table has.
    pub closed spec fn spec_capacity(&self) -> int {
        self.keys@.len() as int
    }

    /// How many slots hold an entry or a tombstone.
    pub closed spec fn spec_used(&self) -> int {
        self.len + self.tombstones
    }

    /// One more key can go in: a slot is left, or the table can be doubled.
    pub open spec fn has_room(&self) -> bool {
        ||| self.spec_used() + 1 <= threshold(self.spec_capacity())
        ||| fits(2 * self.spec_capacity())
    }

    /// Whether inserting one more key doubles the table.
    pub open spec fn must_grow(&self) -> bool {
        self.spec_used() + 1 > threshold(self.spec_capacity())
    }

    /// The table is no larger than its entries call for, and holds no tombstone: so it is with a
    /// map that was only ever grown from `new`.
    pub open spec fn compact(&self) -> bool {
        &&& self.spec_used() == self@.len()
        &&& 3 * self.spec_capacity() <= 8 * self@.len() + 12
    }

    /// What storing a value under `key` makes of a map that doubles its table where it must.
    pub open spec fn is_stored(before: Self, after: Self, key: usize, val: V) -> bool {
        &&& after.wf()
        &&& after@ == before@.insert(key, val)
        &&& after.spec_capacity() == (if before.must_grow() {
            2 * before.spec_capacity()
        } else {
            before.spec_capacity()
        })
    }

    /// What removing `key` makes of a map.
    pub open spec fn is_removed(before: Self, after: Self, key: usize) -> bool {
        &&& after.wf()
        &&& after@ == before@.remove(key)
        &&& after.spec_capacity() == before.spec_capacity()
    }

    /// What replacing the value of `key` by `val` makes of a map: it stores `val` if there was none,
    /// and does not touch the table otherwise.
    pub open spec fn is_updated(before: Self, after: Self, key: usize, val: V) -> bool {
        if before@.contains_key(key) {
            &&& after.wf()
            &&& after@ == before@.insert(key, val)
            &&& after.spec_capacity() == before.spec_capacity()
        } else {
            Self::is_stored(before, after, key, val)
        }
    }

    /// `after` comes out of `before` by one call of `insert`, `remove` or `update`.
    pub open spec fn is_step(before: Self, after: Self) -> bool {
        ||| exists|key: usize, val: V| #[trigger] Self::is_stored(before, after, key, val)
        ||| exists|key: usize| #[trigger] Self::is_removed(before, after, key)
        ||| exists|key: usize, val: V| #[trigger] Self::is_updated(before, after, key, val)
    }

    /// Over any run of inserts, removals and updates the number of slots stays a power of two and at
    /// least four, at most three quarters of it are live, and no call lowers it.
    pub proof fn law_capacity(maps: Seq<Self>)
        requires
            0 < maps.len(),
            maps[0].wf(),
            forall|i: int|
                #![trigger maps[i + 1]]
                0 <= i < maps.len() - 1 ==> Self::is_step(maps[i], maps[i + 1]),
        ensures
            forall|i: int|
                0 <= i < maps.len() ==> crate::arith::is_pow2((#[trigger] maps[i]).spec_capacity())
                    && 4 <= maps[i].spec_capacity() && 4 * maps[i]@.len() <= 3
                    * maps[i].spec_capacity(),
            forall|i: int, j: int|
                0 <= i <= j < maps.len() ==> (#[trigger] maps[i]).spec_capacity() <= (
                #[trigger] maps[j]).spec_capacity(),
        decreases maps.len(),
    {
        let n = maps.len() - 1;
        if n == 0 {
            maps[0].lemma_wf();
        } else {
            let run = maps.drop_last();
            assert forall|i: int|
                #![trigger run[i + 1]]
                0 <= i < run.len() - 1 implies Self::is_step(run[i], run[i + 1]) by {
                assert(maps[i + 1] == run[i + 1]);
            }
            Self::law_capacity(run);
            assert(run[n - 1].spec_capacity() >= 4);
            assert(Self::is_step(maps[n - 1], maps[(n - 1) + 1]));
            maps[n].lemma_wf();
            assert forall|i: int| 0 <= i < maps.len() implies crate::arith::is_pow2(
                (#[trigger] maps[i]).spec_capacity(),
            ) && 4 <= maps[i].spec_capacity() && 4 * maps[i]@.len() <= 3
                * maps[i].spec_capacity() by {
                if i < n {
                    assert(run[i] == maps[i]);
                }
            }
            assert forall|i: int, j: int| 0 <= i <= j < maps.len() implies (
            #[trigger] maps[i]).spec_capacity() <= (#[trigger] maps[j]).spec_capacity() by {
                if j < n {
                    assert(run[i] == maps[i] && run[j] == maps[j]);
                } else if i < n {
                    assert(run[i] == maps[i] && run[n - 1] == maps[n - 1]);
                    assert(run[i].spec_capacity() <= run[n - 1].spec_capacity());
                }
            }
        }
    }

    /// An update leaves one entry under its key, whose value is the new one: a key that had a value
    /// adds no entry, one that had none adds one, and all other keys stay as they are.
    pub proof fn law_update(before: Self, after: Self, key: usize, val: V)
        requires
            before.wf(),
            Self::is_updated(before, after, key, val),
        ensures
            after@.contains_key(key) && after@[key] == val,
            after@.len() == before@.len() + (if before@.contains_key(key) {
                0int
            } else {
                1
            }),
            forall|k: usize|
                k != key ==> #[trigger] after@.contains_key(k) == before@.contains_key(k),
            forall|k: usize|
                k != key && before@.contains_key(k) ==> #[trigger] after@[k] == before@[k],
    {
        before.lemma_wf();
        assert(after@.dom() =~= before@.dom().insert(key));
    }

    /// A compact map whose keys are all below `n` has room for one more.
    pub proof fn lemma_room_below(&self, n: int)
        requires
            self.wf(),
            self.compact(),
            0 <= n,
            ids_fit(n),
            forall|k: usize| #[trigger] self@.contains_key(k) ==> k < n,
        ensures
            self.has_room(),
            self@.len() <= n,
    {
        self.lemma_wf();
        lemma_ids_below(n);
        assert(self@.dom().subset_of(ids_below(n)));
        vstd::set_lib::lemma_len_subset(self@.dom(), ids_below(n));
    }

    /// What the invariant says of the numbers a caller can see.
    pub proof fn lemma_wf(&self)
        requires
            self.wf(),
        ensures
            self@.dom().finite(),
            self@.len() <= self.spec_used() <= threshold(self.spec_capacity()),
            crate::arith::is_pow2(self.spec_capacity()),
            4 <= self.spec_capacity(),
            fits(self.spec_capacity()),
            forall|k: usize| #[trigger] self@.contains_key(k) ==> valid_key(k),
    {
        lemma_key_set(self.keys@);
        assert(self@.dom() =~= key_set(self.keys@));
    }

    /// An empty map of four slots.
    pub fn new() -> (r: Self)
        ensures
            r.wf(),
            r@ == Map::<usize, V>::empty(),
            r.spec_capacity() == 4,
            r.spec_used() == 0,
    {
        let r = Self::with_capacity(4);
        proof {
            vstd::arithmetic::power2::lemma2_to64();
            assert(vstd::arithmetic::power2::pow2(2) == 4);
            crate::arith::lemma_next_pow2_unique(4, 4, r.spec_capacity());
        }
        r
    }

    /// An empty map with the least power of two of slots that is at least `cap`, and at least four.
    pub fn with_capacity(cap: usize) -> (r: Self)
        requires
            16 * cap <= isize::MAX || (crate::arith::is_pow2(cap as int) && fits(cap as int)),
        ensures
            r.wf(),
            r@ == Map::<usize, V>::empty(),
            crate::arith::is_next_pow2(
                crate::arith::max(cap as int, 4),
                r.spec_capacity(),
            ),
            r.spec_used() == 0,
    {
        let least: usize = if cap < 4 { 4 } else { cap };
        let n: usize = crate::arith::next_power_of_two(least);
        proof {
            if crate::arith::is_pow2(least as int) {
                crate::arith::lemma_next_pow2_unique(least as int, least as int, n as int);
            }
        }
        let r = BlockMap {
            keys: crate::arith::filled(n, EMPTY),
            vals: crate::arith::filled(n, None),
            len: 0,
            tombstones: 0,
            mask: n - 1,
        };
        proof {
            lemma_count_fill(r.keys@, EMPTY);
            lemma_count_total(r.keys@);
            assert(key_set(r.keys@) =~= Set::<usize>::empty());
            assert(r@ =~= Map::<usize, V>::empty());
        }
        r
    }

    /// Number of live entries.
    pub fn len(&self) -> (r: usize)
        requires
            self.wf(),
        ensures
            r == self@.len(),
    {
        proof {
            lemma_key_set(self.keys@);
            assert(self@.dom() =~= key_set(self.keys@));
        }
        self.len
    }

    /// Whether there is no entry.
    pub fn is_empty(&self) -> (r: bool)
        requires
            self.wf(),
        ensures
            r == (self@ == Map::<usize, V>::empty()),
    {
        proof {
            lemma_key_set(self.keys@);
            assert(self@.dom() =~= key_set(self.keys@));
            if self.len == 0 {
                assert(self@.dom() =~= Set::<usize>::empty());
                assert(self@ =~= Map::<usize, V>::empty());
            }
        }
        self.len == 0
    }

    /// Allocated slot count, a power of two.
    pub fn capacity(&self) -> (r: usize)
        ensures
            r == self.spec_capacity(),
    {
        self.keys.len()
    }

    /// The slot at which the probe for `key` starts.
    pub fn slot(&self, key: usize) -> (r: usize)
        requires
            self.wf(),
        ensures
            r == home(key as int, self.spec_capacity()),
            r < self.spec_capacity(),
    {
        proof {
            let p: int = (key as u64) * MIX;
            let x = (p % 0x1_0000_0000_0000_0000) as u64;
            crate::arith::lemma_mask_is_mod(x, self.mask);
            crate::arith::lemma_wrap_mod(p, self.spec_capacity());
            vstd::arithmetic::div_mod::lemma_mod_bound(p, self.spec_capacity());
        }
        mix(key) & self.mask
    }

    /// How many slots may be in use before the table grows: three quarters.
    fn grow_threshold(&self) -> (r: usize)
        requires
            self.wf(),
        ensures
            r == threshold(self.spec_capacity()),
    {
        self.capacity() * 3 / 4
    }

    /// Walks the probe chain of `key`. Returns whether `key` has a slot, and that slot, or else the
    /// slot where it may be placed: the first tombstone of the chain, or the vacant slot at its end.
    fn find_slot(&self, key: usize) -> (r: (bool, usize))
        requires
            self.wf(),
            valid_key(key),
        ensures
            r.1 < self.keys@.len(),
            r.0 ==> self.keys@[r.1 as int] == key,
            !r.0 ==> {
                &&& !valid_key(self.keys@[r.1 as int])
                &&& !self.keys@.contains(key)
                &&& forall|m: int|
                    0 <= m < self.keys@.len() && dist(
                        home(key as int, self.spec_capacity()),
                        m,
                        self.spec_capacity(),
                    ) < dist(
                        home(key as int, self.spec_capacity()),
                        r.1 as int,
                        self.spec_capacity(),
                    ) ==> #[trigger] self.keys@[m] != EMPTY
            },
    {
        let ghost cap = self.spec_capacity();
        let ghost h = home(key as int, cap);
        let ghost e = lemma_has_vacant(self.keys@);
        let ghost mut d: int = 0;
        let mut free: Option<usize> = None;
        let mut i: usize = self.slot(key);
        loop
            invariant
                self.wf(),
                valid_key(key),
                cap == self.keys@.len(),
                h == home(key as int, cap),
                0 <= h < cap,
                i < cap,
                d == dist(h, i as int, cap),
                0 <= e < cap,
                self.keys@[e] == EMPTY,
                d <= dist(h, e, cap),
                forall|m: int|
                    0 <= m < cap && dist(h, m, cap) < d ==> #[trigger] self.keys@[m] != EMPTY
                        && self.keys@[m] != key,
                free matches Some(t) ==> t < cap && self.keys@[t as int] == TOMBSTONE && dist(
                    h,
                    t as int,
                    cap,
                ) < d,
            decreases cap - d,
        {
            let k: usize = self.keys[i];
            if k == key {
                return (true, i);
            }
            if k == EMPTY {
                proof {
                    if self.keys@.contains(key) {
                        let a = choose|a: int| 0 <= a < cap && self.keys@[a] == key;
                        assert(self.keys@[i as int] == EMPTY);
                        assert(valid_key(self.keys@[a]));
                    }
                }
                return match free {
                    Some(t) => (false, t),
                    None => (false, i),
                };
            }
            if k == TOMBSTONE {
                if free.is_none() {
                    free = Some(i);
                }
            }
            proof {
                assert(e != i);
                assert(dist(h, e, cap) > d);
                crate::arith::lemma_mask_is_mod((i + 1) as u64, self.mask);
                if i + 1 == cap {
                    vstd::arithmetic::div_mod::lemma_mod_self_0(cap);
                } else {
                    vstd::arithmetic::div_mod::lemma_small_mod((i + 1) as nat, cap as nat);
                }
                d = d + 1;
            }
            i = (i + 1) & self.mask;
        }
    }

    /// The value stored for `key`.
    pub fn get(&self, key: usize) -> (r: Option<V>)
        requires
            self.wf(),
            valid_key(key),
        ensures
            r == (if self@.contains_key(key) { Some(self@[key]) } else { None::<V> }),
    {
        let (found, i) = self.find_slot(key);
        if found {
            proof {
                lemma_map_at(self.keys@, self.vals@, i as int);
            }
            self.vals[i]
        } else {
            None
        }
    }

    /// Stores `val` for `key`, over what was stored for it. Doubles the table first where more than
    /// three quarters of the slots would be in use.
    pub fn insert(&mut self, key: usize, val: V)
        requires
            old(self).wf(),
            valid_key(key),
            old(self).has_room(),
        ensures
            Self::is_stored(*old(self), *final(self), key, val),
            final(self).spec_used() <= old(self).spec_used() + 1,
            old(self).spec_used() == old(self)@.len() || old(self).must_grow()
                ==> final(self).spec_used() == final(self)@.len(),
            old(self).compact() ==> final(self).compact(),
    {
        proof {
            self.lemma_wf();
            crate::arith::lemma_pow2_mod4(self.spec_capacity());
        }
        if self.len + self.tombstones + 1 > self.grow_threshold() {
            self.grow();
        }
        self.insert_no_grow(key, val);
        proof {
            old(self).lemma_wf();
            assert(self@.dom() =~= old(self)@.dom().insert(key));
        }
    }

    fn insert_no_grow(&mut self, key: usize, val: V)
        requires
            old(self).wf(),
            valid_key(key),
            old(self).spec_used() + 1 <= threshold(old(self).spec_capacity()),
        ensures
            final(self).wf(),
            final(self)@ == old(self)@.insert(key, val),
            final(self).spec_capacity() == old(self).spec_capacity(),
            final(self).spec_used() <= old(self).spec_used() + 1,
            old(self).spec_used() == old(self)@.len() ==> final(self).spec_used() == final(self)@.len(),
    {
        let (found, i) = self.find_slot(key);
        let ghost k0 = self.keys@;
        let ghost v0 = self.vals@;
        proof {
            lemma_key_set(k0);
            assert(self@.dom() =~= key_set(k0));
        }
        if found {
            proof {
                lemma_map_overwrite(k0, v0, i as int, val);
                lemma_map_at(k0, v0, i as int);
            }
            self.vals[i] = Some(val);
            proof {
                assert(self@.dom() =~= old(self)@.dom());
            }
        } else {
            if self.keys[i] == TOMBSTONE {
                proof {
                    lemma_count_total(k0);
                    if self.tombstones == 0 {
                        lemma_count_update(k0, i as int, EMPTY, 1);
                    }
                }
                self.tombstones = self.tombstones - 1;
            }
            self.keys[i] = key;
            self.vals[i] = Some(val);
            self.len = self.len + 1;
            proof {
                lemma_map_place(k0, v0, i as int, key, val);
                lemma_count_update(k0, i as int, key, 1);
                lemma_count_update(k0, i as int, key, 2);
                assert(reachable(self.keys@)) by {
                    let nk = self.keys@;
                    assert forall|a: int, m: int|
                        0 <= a < nk.len() && 0 <= m < nk.len() && valid_key(#[trigger] nk[a]) && dist(
                            home(nk[a] as int, nk.len() as int),
                            m,
                            nk.len() as int,
                        ) < dist(home(nk[a] as int, nk.len() as int), a, nk.len() as int) implies #[trigger] nk[m]
                        != EMPTY by {
                        if m != i {
                            assert(nk[m] == k0[m]);
                            if a != i {
                                assert(nk[a] == k0[a]);
                            }
                        }
                    }
                }
                lemma_key_set(self.keys@);
                assert(self@.dom() =~= key_set(self.keys@));
            }
        }
    }

    /// Removes `key` and returns its value. Leaves a tombstone, so that later entries of the same
    /// probe chain stay reachable.
    pub fn remove(&mut self, key: usize) -> (r: Option<V>)
        requires
            old(self).wf(),
            valid_key(key),
        ensures
            Self::is_removed(*old(self), *final(self), key),
            r == (if old(self)@.contains_key(key) { Some(old(self)@[key]) } else { None::<V> }),
            final(self).spec_used() == old(self).spec_used(),
    {
        let (found, i) = self.find_slot(key);
        let ghost k0 = self.keys@;
        let ghost v0 = self.vals@;
        if !found {
            proof {
                assert(self@.remove(key) =~= self@);
            }
            return None;
        }
        proof {
            lemma_map_at(k0, v0, i as int);
            lemma_map_delete(k0, v0, i as int);
            lemma_count_update(k0, i as int, TOMBSTONE, 1);
            lemma_count_update(k0, i as int, TOMBSTONE, 2);
            lemma_count_total(k0);
        }
        self.keys[i] = TOMBSTONE;
        let v = self.vals[i];
        self.len = self.len - 1;
        self.tombstones = self.tombstones + 1;
        proof {
            assert(reachable(self.keys@)) by {
                let nk = self.keys@;
                assert forall|a: int, m: int|
                    0 <= a < nk.len() && 0 <= m < nk.len() && valid_key(#[trigger] nk[a]) && dist(
                        home(nk[a] as int, nk.len() as int),
                        m,
                        nk.len() as int,
                    ) < dist(home(nk[a] as int, nk.len() as int), a, nk.len() as int) implies #[trigger] nk[m]
                    != EMPTY by {
                    if m != i {
                        assert(nk[m] == k0[m]);
                        assert(nk[a] == k0[a]);
                    }
                }
            }
        }
        v
    }

    /// Replaces the value of `key` with `f` of it, or stores `default` where `key` has none, and
    /// returns the new value. `f` is called only where `key` has a value.
    pub fn update<F: FnOnce(V) -> V>(&mut self, key: usize, default: V, f: F) -> (r: V)
        requires
            old(self).wf(),
            valid_key(key),
            old(self)@.contains_key(key) || old(self).has_room(),
            old(self)@.contains_key(key) ==> call_requires(f, (old(self)@[key],)),
        ensures
            Self::is_updated(*old(self), *final(self), key, r),
            old(self)@.contains_key(key) ==> call_ensures(f, (old(self)@[key],), r)
                && final(self).spec_used() == old(self).spec_used(),
            !old(self)@.contains_key(key) ==> r == default,
            final(self).spec_used() <= old(self).spec_used() + 1,
            old(self).spec_used() == old(self)@.len() ==> final(self).spec_used() == final(self)@.len(),
            old(self).compact() ==> final(self).compact(),
    {
        let (found, i) = self.find_slot(key);
        if found {
            proof {
                lemma_map_at(self.keys@, self.vals@, i as int);
            }
            if let Some(before) = self.vals[i] {
                let after = f(before);
                proof {
                    lemma_map_overwrite(self.keys@, self.vals@, i as int, after);
                }
                self.vals[i] = Some(after);
                proof {
                    assert(self@.dom() =~= old(self)@.dom());
                }
                return after;
            }
        }
        self.insert(key, default);
        default
    }

    /// All live `(key, value)` pairs, each once, in no particular order.
    pub fn iter(&self) -> (r: Vec<(usize, V)>)
        requires
            self.wf(),
        ensures
            lists_entries(r@, self@),
            r@.len() == self@.len(),
    {
        let mut r: Vec<(usize, V)> = Vec::with_capacity(self.len);
        let n: usize = self.keys.len();
        let mut i: usize = 0;
        proof {
            assert(map_of(self.keys@.take(0), self.vals@.take(0)) =~= Map::<usize, V>::empty()) by {
                assert(key_set(self.keys@.take(0)) =~= Set::<usize>::empty());
            }
        }
        while i < n
            invariant
                self.wf(),
                n == self.keys@.len(),
                i <= n,
                r@.len() == count(self.keys@.take(i as int), 2),
                lists_entries(r@, map_of(self.keys@.take(i as int), self.vals@.take(i as int))),
            decreases n - i,
        {
            let k: usize = self.keys[i];
            let ghost m0 = map_of(self.keys@.take(i as int), self.vals@.take(i as int));
            let ghost r0 = r@;
            proof {
                lemma_map_take(self.keys@, self.vals@, i as int);
                lemma_count_take(self.keys@, i as int, 2);
            }
            if k != EMPTY && k != TOMBSTONE {
                if let Some(v) = self.vals[i] {
                    r.push((k, v));
                    proof {
                        let m1 = m0.insert(k, v);
                        assert(!m0.contains_key(k));
                        assert forall|q: usize| #[trigger] m1.contains_key(q) implies exists|j: int|
                            0 <= j < r@.len() && (#[trigger] r@[j]).0 == q by {
                            if q == k {
                                assert(r@[r0.len() as int].0 == q);
                            } else {
                                assert(m0.contains_key(q));
                                let j = choose|j: int| 0 <= j < r0.len() && (#[trigger] r0[j]).0 == q;
                                assert(r@[j].0 == q);
                            }
                        }
                        assert forall|j: int| 0 <= j < r@.len() implies #[trigger] m1.contains_key(
                            r@[j].0,
                        ) && m1[r@[j].0] == r@[j].1 by {
                            if j < r0.len() {
                                assert(r@[j] == r0[j]);
                                assert(m0.contains_key(r0[j].0));
                            }
                        }
                        assert forall|a: int, b: int|
                            0 <= a < r@.len() && 0 <= b < r@.len() && (#[trigger] r@[a]).0 == (
                            #[trigger] r@[b]).0 implies a == b by {
                            if a < r0.len() {
                                assert(r@[a] == r0[a]);
                                assert(m0.contains_key(r0[a].0));
                            }
                            if b < r0.len() {
                                assert(r@[b] == r0[b]);
                                assert(m0.contains_key(r0[b].0));
                            }
                        }
                    }
                }
            }
            i = i + 1;
        }
        proof {
            assert(self.keys@.take(n as int) =~= self.keys@);
            assert(self.vals@.take(n as int) =~= self.vals@);
            lemma_key_set(self.keys@);
            assert(self@.dom() =~= key_set(self.keys@));
        }
        r
    }

    /// All live `(key, value)` pairs, sorted by key.
    pub fn sorted_pairs(&self) -> (r: Vec<(usize, V)>) where V: Send + Sync
        requires
            self.wf(),
        ensures
            lists_entries(r@, self@),
            r@.len() == self@.len(),
            forall|i: int, j: int| 0 <= i < j < r@.len() ==> (#[trigger] r@[i]).0 < (#[trigger] r@[j]).0,
    {
        let mut v: Vec<(usize, V)> = self.iter();
        let ghost before = v@;
        crate::par::sort_pairs(&mut v);
        proof {
            lemma_permuted_entries(before, v@, self@);
        }
        v
    }

    /// Doubles the table and drops the tombstones.
    fn grow(&mut self)
        requires
            old(self).wf(),
            fits(2 * old(self).spec_capacity()),
        ensures
            final(self).wf(),
            final(self)@ == old(self)@,
            final(self).spec_capacity() == 2 * old(self).spec_capacity(),
            final(self).spec_used() == old(self)@.len(),
    {
        let new_cap: usize = self.capacity() * 2;
        proof {
            crate::arith::lemma_pow2_double(self.spec_capacity());
            crate::arith::lemma_pow2_mod4(self.spec_capacity());
        }
        let mut new = Self::with_capacity(new_cap);
        proof {
            crate::arith::lemma_next_pow2_unique(
                new_cap as int,
                new_cap as int,
                new.spec_capacity(),
            );
            lemma_key_set(self.keys@);
            assert(self@.dom() =~= key_set(self.keys@));
            assert(map_of(self.keys@.take(0), self.vals@.take(0)) =~= Map::<usize, V>::empty()) by {
                assert(key_set(self.keys@.take(0)) =~= Set::<usize>::empty());
            }
        }
        let n: usize = self.keys.len();
        let mut i: usize = 0;
        while i < n
            invariant
                self.wf(),
                n == self.keys@.len(),
                n % 4 == 0,
                i <= n,
                new.wf(),
                new@ == map_of(self.keys@.take(i as int), self.vals@.take(i as int)),
                new.spec_capacity() == 2 * n,
                new.spec_used() == new@.len(),
                new@.len() == count(self.keys@.take(i as int), 2),
            decreases n - i,
        {
            let k: usize = self.keys[i];
            proof {
                lemma_map_take(self.keys@, self.vals@, i as int);
                lemma_count_take(self.keys@, i as int, 2);
            }
            if k != EMPTY && k != TOMBSTONE {
                if let Some(v) = self.vals[i] {
                    let ghost m0 = new@;
                    proof {
                        new.lemma_wf();
                        assert(!m0.contains_key(k));
                    }
                    new.insert_no_grow(k, v);
                    proof {
                        assert(new@.dom() =~= m0.dom().insert(k));
                    }
                }
            }
            i = i + 1;
        }
        proof {
            assert(self.keys@.take(n as int) =~= self.keys@);
            assert(self.vals@.take(n as int) =~= self.vals@);
        }
        *self = new;
    }
}

impl<V: Copy> Default for BlockMap<V> {
    fn default() -> (r: Self)
        ensures
            r.wf(),
            r@ == Map::<usize, V>::empty(),
            r.spec_capacity() == 4,
            r.spec_used() == 0,
    {
        Self::new()
    }
}

proof fn lemma_permuted_entries<V>(a: Seq<(usize, V)>, b: Seq<(usize, V)>, m: Map<usize, V>)
    requires
        lists_entries(a, m),
        a.to_multiset() == b.to_multiset(),
        crate::par::sorted_by_key(b),
    ensures
        lists_entries(b, m),
        a.len() == b.len(),
        forall|i: int, j: int| 0 <= i < j < b.len() ==> (#[trigger] b[i]).0 < (#[trigger] b[j]).0,
{
    broadcast use vstd::seq_lib::group_to_multiset_ensures;

    assert(a.no_duplicates());
    a.lemma_multiset_has_no_duplicates();
    b.lemma_multiset_has_no_duplicates_conv();
    vstd::seq_lib::to_multiset_len(a);
    vstd::seq_lib::to_multiset_len(b);
    assert forall|i: int| 0 <= i < b.len() implies #[trigger] m.contains_key(b[i].0) && m[b[i].0]
        == b[i].1 by {
        assert(b.contains(b[i]));
        assert(a.to_multiset().count(b[i]) > 0);
        assert(a.contains(b[i]));
        let j = choose|j: int| 0 <= j < a.len() && a[j] == b[i];
        assert(m.contains_key(a[j].0));
    }
    assert forall|k: usize| #[trigger] m.contains_key(k) implies exists|i: int|
        0 <= i < b.len() && (#[trigger] b[i]).0 == k by {
        let j = choose|j: int| 0 <= j < a.len() && (#[trigger] a[j]).0 == k;
        assert(a.contains(a[j]));
        assert(b.to_multiset().count(a[j]) > 0);
        assert(b.contains(a[j]));
        let i = choose|i: int| 0 <= i < b.len() && b[i] == a[j];
        assert(b[i].0 == k);
    }
    assert forall|i: int, j: int|
        0 <= i < b.len() && 0 <= j < b.len() && (#[trigger] b[i]).0 == (#[trigger] b[j]).0 implies i
        == j by {
        assert(m.contains_key(b[i].0) && m.contains_key(b[j].0));
        assert(b[i] == b[j]);
    }
}

/// Multiplication by an odd constant is a bijection modulo a power of two: two keys share a home
/// slot exactly when they differ by a multiple of the capacity, so any run of `cap` consecutive
/// keys spreads over all `cap` slots.
pub proof fn law_home_is_bijective(a: int, b: int, cap: int)
    requires
        crate::arith::is_pow2(cap),
        cap <= 0x1_0000_0000_0000_0000,
    ensures
        home(a, cap) == home(b, cap) <==> a % cap == b % cap,
{
    let p = choose|p: nat| #[trigger] vstd::arithmetic::power2::pow2(p) == cap;
    vstd::arithmetic::power2::lemma_pow2_pos(p);
    lemma_unmix(a, cap);
    lemma_unmix(b, cap);
    vstd::arithmetic::div_mod::lemma_mul_mod_noop_left(a, MIX as int, cap);
    vstd::arithmetic::div_mod::lemma_mul_mod_noop_left(b, MIX as int, cap);
}

proof fn lemma_unmix(a: int, cap: int)
    requires
        crate::arith::is_pow2(cap),
        0 < cap <= 0x1_0000_0000_0000_0000,
    ensures
        (home(a, cap) * 0xf1de_83e1_9937_733d) % cap == a % cap,
{
    let inv: int = 0xf1de_83e1_9937_733d;
    let full: int = 0x1_0000_0000_0000_0000;
    vstd::arithmetic::div_mod::lemma_mul_mod_noop_left(a * MIX, inv, cap);
    assert((a * MIX) * inv == a * (MIX * inv)) by (nonlinear_arith);
    assert((MIX * inv) % full == 1);
    crate::arith::lemma_wrap_mod(MIX * inv, cap);
    vstd::arithmetic::div_mod::lemma_mul_mod_noop_right(a, MIX * inv, cap);
    vstd::arithmetic::div_mod::lemma_mul_mod_noop_right(a, 1, cap);
}

/// The homes of keys add up as the keys do, modulo the capacity, and key one has the constant for its
/// home: the home is the key times the constant.
pub proof fn law_home_is_linear(a: int, b: int, cap: int)
    requires
        0 < cap,
    ensures
        0 <= home(a, cap) < cap,
        home(0, cap) == 0,
        home(1, cap) == 0x9e37_79b9_7f4a_7c15int % cap,
        home(a + b, cap) == (home(a, cap) + home(b, cap)) % cap,
{
    let m = MIX as int;
    vstd::arithmetic::div_mod::lemma_mod_bound(a * m, cap);
    assert((a + b) * m == a * m + b * m) by (nonlinear_arith);
    vstd::arithmetic::div_mod::lemma_add_mod_noop(a * m, b * m, cap);
    vstd::arithmetic::div_mod::lemma_small_mod(0, cap as nat);
}

/// The table grows when more than three quarters of its slots would be used.
pub proof fn law_threshold(cap: int, used: int)
    ensures
        used > threshold(cap) <==> 4 * used > 3 * cap,
{
}

/// After a value was stored under a key, it is found there, every other key is found as before, and
/// the capacity has doubled exactly if more than three quarters of the slots would be used.
pub proof fn law_stored<V: Copy>(before: BlockMap<V>, after: BlockMap<V>, key: usize, val: V, k: usize)
    requires
        BlockMap::is_stored(before, after, key, val),
    ensures
        after.wf(),
        after@.contains_key(key) && after@[key] == val,
        k != key ==> (after@.contains_key(k) <==> before@.contains_key(k)),
        k != key && before@.contains_key(k) ==> after@[k] == before@[k],
        after.spec_capacity() == (if 4 * (before.spec_used() + 1) > 3 * before.spec_capacity() {
            2 * before.spec_capacity()
        } else {
            before.spec_capacity()
        }),
{
}

/// After a key was removed, it is not found, every other key is found as before, and the capacity is
/// what it was.
pub proof fn law_removed<V: Copy>(before: BlockMap<V>, after: BlockMap<V>, key: usize, k: usize)
    requires
        BlockMap::is_removed(before, after, key),
    ensures
        after.wf(),
        !after@.contains_key(key),
        k != key ==> (after@.contains_key(k) <==> before@.contains_key(k)),
        k != key && before@.contains_key(k) ==> after@[k] == before@[k],
        after.spec_capacity() == before.spec_capacity(),
{
}

/// A list of the entries has every pair of the map and no other, and each key once.
pub proof fn law_entries<V>(s: Seq<(usize, V)>, m: Map<usize, V>, k: usize, v: V)
    requires
        lists_entries(s, m),
    ensures
        s.contains((k, v)) <==> m.contains_key(k) && m[k] == v,
        s.no_duplicates(),
{
    if s.contains((k, v)) {
        let i = choose|i: int| 0 <= i < s.len() && s[i] == (k, v);
        assert(m.contains_key(s[i].0));
    }
    if m.contains_key(k) && m[k] == v {
        let i = choose|i: int| 0 <= i < s.len() && (#[trigger] s[i]).0 == k;
        assert(m.contains_key(s[i].0));
        assert(s[i] == (k, v));
    }
}

} // verus!
