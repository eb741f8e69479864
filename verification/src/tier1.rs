//! Tier 1: receiver-side Bloom tables over the node's own names.
//!
//! Tier 0 can tell whether a frame's name is under a registered prefix. It cannot
//! tell whether the name is a prefix of something this node holds, because the
//! frame does not carry this node's names. Three tables answer on the parsed
//! name: registered prefixes, outstanding Interests, and every prefix of every
//! cached name.
//!
//! Each table is a counting filter, which supports removal, and a plain bit
//! array mirrored from it, which the fast path reads. The mirror is refreshed in
//! two passes: every bit that must be set is set before any bit is cleared, so a
//! reader never misses an entry that was there before and is there after.

use vstd::prelude::*;

use crate::bits;
use crate::hash;
use crate::tier0;

verus! {

// ---------------------------------------------------------------------------
// Probes
// ---------------------------------------------------------------------------

/// The key of a table's second hash.
pub open spec fn table_key2(key: Seq<u8>) -> Seq<u8> {
    key.update(0, key[0] ^ 0x5a)
}

/// Probe `i` of a key with hashes `h1` and `h2` in a table of `m` bits.
pub open spec fn probe(h1: u64, h2: u64, m: u64, i: int) -> int {
    (h1.wrapping_add((i as u64).wrapping_mul(h2 | 1u64)) % m) as int
}

/// The probes of a key with these hashes, in order.
pub open spec fn probes(h1: u64, h2: u64, m: u64, k: int) -> Seq<int> {
    Seq::new(k as nat, |i: int| probe(h1, h2, m, i))
}

/// The probes of `name` in a table of `m` bits under `key`.
pub open spec fn name_probes(key: Seq<u8>, name: Seq<u8>, m: u64, k: int) -> Seq<int> {
    probes(hash::siphash24_of(key, name), hash::siphash24_of(table_key2(key), name), m, k)
}

/// The probes of several names, one after the other.
pub open spec fn all_probes(key: Seq<u8>, list: Seq<Seq<u8>>, m: u64, k: int) -> Seq<int>
    decreases list.len(),
{
    if list.len() == 0 {
        Seq::empty()
    } else {
        all_probes(key, list.drop_last(), m, k) + name_probes(key, list.last(), m, k)
    }
}

// ---------------------------------------------------------------------------
// Counters
// ---------------------------------------------------------------------------

/// How often `i` occurs in `at`.
pub open spec fn occurrences(at: Seq<int>, i: int) -> nat
    decreases at.len(),
{
    if at.len() == 0 {
        0
    } else {
        occurrences(at.drop_last(), i) + if at.last() == i { 1nat } else { 0nat }
    }
}

/// The counters once every probe of `at` was counted up, each stopping at 255.
pub open spec fn counted_up(counts: Seq<u8>, at: Seq<int>) -> Seq<u8> {
    Seq::new(
        counts.len(),
        |i: int|
            if counts[i] + occurrences(at, i) > 255 {
                255u8
            } else {
                (counts[i] + occurrences(at, i)) as u8
            },
    )
}

/// The counters once every probe of `at` was counted down, each stopping at 0.
pub open spec fn counted_down(counts: Seq<u8>, at: Seq<int>) -> Seq<u8> {
    Seq::new(
        counts.len(),
        |i: int|
            if counts[i] < occurrences(at, i) {
                0u8
            } else {
                (counts[i] - occurrences(at, i)) as u8
            },
    )
}

/// How many of the probes `at` found their counter full.
pub open spec fn overflows(counts: Seq<u8>, at: Seq<int>) -> nat
    decreases at.len(),
{
    if at.len() == 0 {
        0
    } else {
        overflows(counts, at.drop_last()) + if counts[at.last()] + occurrences(
            at.drop_last(),
            at.last(),
        ) >= 255 {
            1nat
        } else {
            0nat
        }
    }
}

/// How many of the probes `at` found their counter empty.
pub open spec fn underflows(counts: Seq<u8>, at: Seq<int>) -> nat
    decreases at.len(),
{
    if at.len() == 0 {
        0
    } else {
        underflows(counts, at.drop_last()) + if counts[at.last()] <= occurrences(
            at.drop_last(),
            at.last(),
        ) {
            1nat
        } else {
            0nat
        }
    }
}

/// The bits that counters stand for.
pub open spec fn truth(counts: Seq<u8>) -> Seq<bool> {
    Seq::new(counts.len(), |i: int| counts[i] != 0)
}

/// Every probe of `at` reads a set bit.
pub open spec fn holds(set: Seq<bool>, at: Seq<int>) -> bool {
    forall|i: int| 0 <= i < at.len() ==> set[#[trigger] at[i]]
}

/// The probes stay inside a table of `m` bits.
pub open spec fn in_range(at: Seq<int>, m: int) -> bool {
    forall|i: int| 0 <= i < at.len() ==> 0 <= #[trigger] at[i] < m
}

proof fn lemma_overflows_bound(counts: Seq<u8>, at: Seq<int>)
    ensures
        overflows(counts, at) <= at.len(),
        underflows(counts, at) <= at.len(),
    decreases at.len(),
{
    if at.len() > 0 {
        lemma_overflows_bound(counts, at.drop_last());
    }
}

proof fn lemma_occurrences_add(a: Seq<int>, b: Seq<int>, i: int)
    ensures
        occurrences(a + b, i) == occurrences(a, i) + occurrences(b, i),
    decreases b.len(),
{
    if b.len() == 0 {
        assert(a + b =~= a);
    } else {
        assert((a + b).drop_last() =~= a + b.drop_last());
        assert((a + b).last() == b.last());
        lemma_occurrences_add(a, b.drop_last(), i);
    }
}

proof fn lemma_occurs(at: Seq<int>, i: int)
    requires
        0 <= i < at.len(),
    ensures
        occurrences(at, at[i]) >= 1,
    decreases at.len(),
{
    if i < at.len() - 1 {
        lemma_occurs(at.drop_last(), i);
    }
}

/// Counting two batches one after the other is counting them as one.
proof fn lemma_counted_up_add(counts: Seq<u8>, a: Seq<int>, b: Seq<int>)
    requires
        in_range(a + b, counts.len() as int),
    ensures
        counted_up(counted_up(counts, a), b) == counted_up(counts, a + b),
        overflows(counts, a) + overflows(counted_up(counts, a), b) == overflows(counts, a + b),
    decreases b.len(),
{
    assert forall|i: int| 0 <= i < counts.len() implies counted_up(counted_up(counts, a), b)[i]
        == counted_up(counts, a + b)[i] by {
        lemma_occurrences_add(a, b, i);
    }
    assert(counted_up(counted_up(counts, a), b) =~= counted_up(counts, a + b));
    if b.len() == 0 {
        assert(a + b =~= a);
    } else {
        let c = b.drop_last();
        assert((a + b).drop_last() =~= a + c);
        assert((a + b).last() == b.last());
        assert(0 <= (a + b)[(a + b).len() - 1] < counts.len());
        assert forall|i: int| 0 <= i < (a + c).len() implies 0 <= #[trigger] (a + c)[i]
            < counts.len() by {
            assert((a + c)[i] == (a + b)[i]);
        }
        lemma_counted_up_add(counts, a, c);
        lemma_occurrences_add(a, c, b.last());
    }
}

// ---------------------------------------------------------------------------
// The mirror
// ---------------------------------------------------------------------------

/// The first `m` bits of the mirror octets.
pub open spec fn mirror_bits(octets: Seq<u8>, m: int) -> Seq<bool> {
    Seq::new(m as nat, |i: int| bits::octet_bit(octets, i))
}

/// How many of the first `n` bits are set.
pub open spec fn ones(set: Seq<bool>, n: int) -> nat
    decreases n,
{
    if n <= 0 {
        0
    } else {
        ones(set, n - 1) + if set[n - 1] { 1nat } else { 0nat }
    }
}

/// The bits below `n` that a refresh must set, in the order it sets them.
pub open spec fn to_set(set: Seq<bool>, counts: Seq<u8>, n: int) -> Seq<(usize, bool)>
    decreases n,
{
    if n <= 0 {
        Seq::empty()
    } else if counts[n - 1] != 0 && !set[n - 1] {
        to_set(set, counts, n - 1).push(((n - 1) as usize, true))
    } else {
        to_set(set, counts, n - 1)
    }
}

/// The bits below `n` that a refresh must clear, in the order it clears them.
pub open spec fn to_clear(set: Seq<bool>, counts: Seq<u8>, n: int) -> Seq<(usize, bool)>
    decreases n,
{
    if n <= 0 {
        Seq::empty()
    } else if counts[n - 1] == 0 && set[n - 1] {
        to_clear(set, counts, n - 1).push(((n - 1) as usize, false))
    } else {
        to_clear(set, counts, n - 1)
    }
}

/// Every bit write of a refresh, in order: those that set, then those that clear.
pub open spec fn refresh_writes(set: Seq<bool>, counts: Seq<u8>) -> Seq<(usize, bool)> {
    to_set(set, counts, counts.len() as int) + to_clear(set, counts, counts.len() as int)
}

/// The bits after the writes `w`.
pub open spec fn replay(set: Seq<bool>, w: Seq<(usize, bool)>) -> Seq<bool>
    decreases w.len(),
{
    if w.len() == 0 {
        set
    } else {
        let r = replay(set, w.drop_last());
        Seq::new(r.len(), |i: int| if i == w.last().0 { w.last().1 } else { r[i] })
    }
}

proof fn lemma_replay_len(set: Seq<bool>, w: Seq<(usize, bool)>)
    ensures
        replay(set, w).len() == set.len(),
    decreases w.len(),
{
    if w.len() > 0 {
        lemma_replay_len(set, w.drop_last());
    }
}

/// A bit that no write names keeps its value; a bit whose writes all agree has
/// that value once one of them was made.
proof fn lemma_replay_bit(set: Seq<bool>, w: Seq<(usize, bool)>, i: int, v: bool)
    requires
        0 <= i < set.len(),
        forall|j: int| 0 <= j < w.len() && (#[trigger] w[j]).0 == i ==> w[j].1 == v,
    ensures
        replay(set, w)[i] == set[i] || replay(set, w)[i] == v,
        (exists|j: int| 0 <= j < w.len() && (#[trigger] w[j]).0 == i) ==> replay(set, w)[i] == v,
        (forall|j: int| 0 <= j < w.len() ==> (#[trigger] w[j]).0 != i) ==> replay(set, w)[i]
            == set[i],
    decreases w.len(),
{
    if w.len() > 0 {
        let r = w.drop_last();
        assert forall|j: int| 0 <= j < r.len() && (#[trigger] r[j]).0 == i implies r[j].1 == v by {
            assert(r[j] == w[j]);
        }
        lemma_replay_bit(set, r, i, v);
        lemma_replay_len(set, r);
        if forall|j: int| 0 <= j < w.len() ==> (#[trigger] w[j]).0 != i {
            assert forall|j: int| 0 <= j < r.len() implies (#[trigger] r[j]).0 != i by {
                assert(r[j] == w[j]);
            }
            assert(w[w.len() - 1].0 != i);
        }
        if exists|j: int| 0 <= j < w.len() && (#[trigger] w[j]).0 == i {
            let j = choose|j: int| 0 <= j < w.len() && (#[trigger] w[j]).0 == i;
            if j < r.len() {
                assert(r[j].0 == i);
            }
            assert(w[w.len() - 1].0 == i ==> w[w.len() - 1].1 == v);
        }
    }
}

/// What the writes of a refresh look like.
proof fn lemma_refresh_writes(set: Seq<bool>, counts: Seq<u8>, n: int)
    requires
        0 <= n <= counts.len() <= usize::MAX,
        set.len() == counts.len(),
    ensures
        forall|j: int|
            0 <= j < to_set(set, counts, n).len() ==> {
                let w = #[trigger] to_set(set, counts, n)[j];
                w.1 && w.0 < n && counts[w.0 as int] != 0 && !set[w.0 as int]
            },
        forall|j: int|
            0 <= j < to_clear(set, counts, n).len() ==> {
                let w = #[trigger] to_clear(set, counts, n)[j];
                !w.1 && w.0 < n && counts[w.0 as int] == 0 && set[w.0 as int]
            },
        forall|i: int|
            0 <= i < n && #[trigger] counts[i] != 0 && !set[i] ==> to_set(set, counts, n).contains(
                (i as usize, true),
            ),
        forall|i: int|
            0 <= i < n && #[trigger] counts[i] == 0 && set[i] ==> to_clear(set, counts, n).contains(
                (i as usize, false),
            ),
    decreases n,
{
    if n > 0 {
        lemma_refresh_writes(set, counts, n - 1);
        let s = to_set(set, counts, n - 1);
        let c = to_clear(set, counts, n - 1);
        assert forall|j: int| 0 <= j < to_set(set, counts, n).len() implies {
            let w = #[trigger] to_set(set, counts, n)[j];
            w.1 && w.0 < n && counts[w.0 as int] != 0 && !set[w.0 as int]
        } by {
            if j < s.len() {
                assert(to_set(set, counts, n)[j] == s[j]);
            }
        }
        assert forall|j: int| 0 <= j < to_clear(set, counts, n).len() implies {
            let w = #[trigger] to_clear(set, counts, n)[j];
            !w.1 && w.0 < n && counts[w.0 as int] == 0 && set[w.0 as int]
        } by {
            if j < c.len() {
                assert(to_clear(set, counts, n)[j] == c[j]);
            }
        }
        assert forall|i: int| 0 <= i < n && #[trigger] counts[i] != 0 && !set[i] implies to_set(
            set,
            counts,
            n,
        ).contains((i as usize, true)) by {
            if i < n - 1 {
                let j = choose|j: int| 0 <= j < s.len() && s[j] == (i as usize, true);
                assert(to_set(set, counts, n)[j] == (i as usize, true));
            } else {
                assert(to_set(set, counts, n).last() == (i as usize, true));
            }
        }
        assert forall|i: int| 0 <= i < n && #[trigger] counts[i] == 0 && set[i] implies to_clear(
            set,
            counts,
            n,
        ).contains((i as usize, false)) by {
            if i < n - 1 {
                let j = choose|j: int| 0 <= j < c.len() && c[j] == (i as usize, false);
                assert(to_clear(set, counts, n)[j] == (i as usize, false));
            } else {
                assert(to_clear(set, counts, n).last() == (i as usize, false));
            }
        }
    }
}

/// A refresh opens no window in which a wanted bit reads clear. After any number
/// of its writes, a bit that was set before and is needed after is set. Once the
/// setting pass is over the bits cover both the old mirror and the new truth,
/// and at the end they are exactly the new truth.
pub proof fn law_refresh_opens_no_window(set: Seq<bool>, counts: Seq<u8>, n: int)
    requires
        set.len() == counts.len() <= usize::MAX,
        0 <= n <= refresh_writes(set, counts).len(),
    ensures
        forall|i: int|
            0 <= i < set.len() && set[i] && counts[i] != 0 ==> #[trigger] replay(
                set,
                refresh_writes(set, counts).take(n),
            )[i],
        n == to_set(set, counts, counts.len() as int).len() ==> forall|i: int|
            0 <= i < set.len() && (set[i] || counts[i] != 0) ==> #[trigger] replay(
                set,
                refresh_writes(set, counts).take(n),
            )[i],
        replay(set, refresh_writes(set, counts)) == truth(counts),
{
    let m = counts.len() as int;
    let s = to_set(set, counts, m);
    let c = to_clear(set, counts, m);
    let all = refresh_writes(set, counts);
    lemma_refresh_writes(set, counts, m);
    let w = all.take(n);
    assert forall|i: int| 0 <= i < set.len() && set[i] && counts[i] != 0 implies #[trigger] replay(
        set,
        w,
    )[i] by {
        assert forall|j: int| 0 <= j < w.len() && (#[trigger] w[j]).0 == i implies w[j].1 by {
            assert(w[j] == all[j]);
            if j >= s.len() {
                assert(all[j] == c[j - s.len()]);
            } else {
                assert(all[j] == s[j]);
            }
        }
        lemma_replay_bit(set, w, i, true);
    }
    if n == s.len() {
        assert(w =~= s);
        assert forall|i: int| 0 <= i < set.len() && (set[i] || counts[i] != 0) implies
            #[trigger] replay(set, w)[i] by {
            assert forall|j: int| 0 <= j < w.len() && (#[trigger] w[j]).0 == i implies w[j].1 by {
                assert(w[j] == s[j]);
            }
            lemma_replay_bit(set, w, i, true);
            if !set[i] {
                assert(s.contains((i as usize, true)));
                let j = choose|j: int| 0 <= j < s.len() && s[j] == (i as usize, true);
                assert(w[j].0 == i);
            }
        }
    }
    lemma_replay_len(set, all);
    assert forall|i: int| 0 <= i < set.len() implies replay(set, all)[i] == truth(counts)[i] by {
        let v = counts[i] != 0;
        assert forall|j: int| 0 <= j < all.len() && (#[trigger] all[j]).0 == i implies all[j].1
            == v by {
            if j >= s.len() {
                assert(all[j] == c[j - s.len()]);
            } else {
                assert(all[j] == s[j]);
            }
        }
        lemma_replay_bit(set, all, i, v);
        if set[i] != v {
            if v {
                let j = choose|j: int| 0 <= j < s.len() && s[j] == (i as usize, true);
                assert(s.contains((i as usize, true)));
                assert(all[j].0 == i);
            } else {
                assert(c.contains((i as usize, false)));
                let j = choose|j: int| 0 <= j < c.len() && c[j] == (i as usize, false);
                assert(all[j + s.len()] == c[j]);
                assert(all[j + s.len()].0 == i);
            }
        }
    }
    assert(replay(set, all) =~= truth(counts));
}

// ---------------------------------------------------------------------------
// The table
// ---------------------------------------------------------------------------

/// The bit at index `i` of the octets `v`, least significant first.
fn read_bit(v: &Vec<u8>, i: usize) -> (r: bool)
    requires
        i / 8 < v.len(),
    ensures
        r == bits::octet_bit(v@, i as int),
{
    v[i / 8] & bits::bit_mask((i % 8) as u8) != 0
}

/// Sets or clears the bit at index `i` and leaves every other bit alone.
fn write_bit(v: &mut Vec<u8>, i: usize, on: bool)
    requires
        i / 8 < old(v).len(),
    ensures
        final(v).len() == old(v).len(),
        forall|j: int|
            0 <= j < 8 * old(v).len() ==> #[trigger] bits::octet_bit(final(v)@, j) == (if j == i {
                on
            } else {
                bits::octet_bit(old(v)@, j)
            }),
{
    let b: u8 = v[i / 8];
    let ghost before = v@;
    let mask: u8 = bits::bit_mask((i % 8) as u8);
    v[i / 8] = if on { b | mask } else { b & !mask };
    proof {
        assert forall|j: int| 0 <= j < 8 * before.len() implies #[trigger] bits::octet_bit(v@, j)
            == (if j == i {
            on
        } else {
            bits::octet_bit(before, j)
        }) by {
            if j / 8 == i as int / 8 {
                bits::lemma_bit_set(b, i as int % 8, j % 8);
                bits::lemma_bit_clear(b, i as int % 8, j % 8);
            }
        }
    }
}

/// The probes of a key with the hashes `h1` and `h2` in a table of `m` bits.
pub fn probe_spots(h1: u64, h2: u64, m: usize, k: u32) -> (out: Vec<usize>)
    requires
        m > 0,
    ensures
        out@.map_values(|p: usize| p as int) == probes(h1, h2, m as u64, k as int),
        in_range(out@.map_values(|p: usize| p as int), m as int),
{
    let mut out: Vec<usize> = Vec::new();
    let step: u64 = h2 | 1;
    let wide: u64 = m as u64;
    let mut i: u32 = 0;
    while i < k
        invariant
            i <= k,
            m > 0,
            wide == m,
            step == h2 | 1u64,
            out.len() == i,
            forall|j: int| 0 <= j < i ==> #[trigger] out[j] == probe(h1, h2, wide, j),
            forall|j: int| 0 <= j < i ==> #[trigger] out[j] < m,
        decreases k - i,
    {
        let p: u64 = h1.wrapping_add((i as u64).wrapping_mul(step)) % wide;
        out.push(p as usize);
        i = i + 1;
    }
    assert(out@.map_values(|p: usize| p as int) =~= probes(h1, h2, m as u64, k as int));
    out
}

/// A counting Bloom filter and the plain mirror that the fast path reads.
#[derive(Clone)]
pub struct Table {
    /// How many keys probe each bit.
    pub counts: Vec<u8>,
    /// The bits that queries read, refreshed by `sync`.
    pub mirror: Vec<u8>,
    /// Probes per key.
    pub k: u32,
    /// The key of the name hash.
    pub key: [u8; 16],
    /// Counter overflows and underflows so far.
    pub saturated: u32,
}

/// What can be done to a table.
pub enum TableOp {
    /// One key is counted in.
    Insert(Seq<u8>),
    /// One key is counted out.
    Remove(Seq<u8>),
    /// The mirror is refreshed.
    Sync,
}

/// `after` is what the operation makes of `before`.
pub open spec fn stepped(before: Table, op: TableOp, after: Table) -> bool {
    &&& after.same_shape(before)
    &&& match op {
        TableOp::Insert(name) => {
            &&& after.mirror == before.mirror
            &&& after.counts@ == counted_up(before.counts@, before.spots(name))
            &&& after.saturated == before.saturated + overflows(before.counts@, before.spots(name))
        },
        TableOp::Remove(name) => {
            &&& after.mirror == before.mirror
            &&& after.counts@ == counted_down(before.counts@, before.spots(name))
            &&& after.saturated == before.saturated + underflows(before.counts@, before.spots(name))
        },
        TableOp::Sync => {
            &&& after.counts@ == before.counts@
            &&& after.saturated == before.saturated
            &&& after.shown() == truth(before.counts@)
        },
    }
}

impl Table {
    /// The mirror has a bit for every counter, and its spare bits are clear.
    pub open spec fn wf(&self) -> bool {
        &&& self.counts.len() >= 8
        &&& self.counts.len() <= 8 * self.mirror.len() < self.counts.len() + 8
        &&& forall|i: int|
            self.counts.len() <= i < 8 * self.mirror.len() ==> !(#[trigger] bits::octet_bit(
                self.mirror@,
                i,
            ))
    }

    /// The probes of `name` in this table.
    pub open spec fn spots(&self, name: Seq<u8>) -> Seq<int> {
        name_probes(self.key@, name, self.counts.len() as u64, self.k as int)
    }

    /// The mirror's bits.
    pub open spec fn shown(&self) -> Seq<bool> {
        mirror_bits(self.mirror@, self.counts.len() as int)
    }

    /// What a query for `name` answers.
    pub open spec fn has(&self, name: Seq<u8>) -> bool {
        holds(self.shown(), self.spots(name))
    }

    /// `other` has the same shape and key, so that names probe the same bits.
    pub open spec fn same_shape(&self, other: Self) -> bool {
        &&& self.counts.len() == other.counts.len()
        &&& self.k == other.k
        &&& self.key == other.key
    }

    /// A table of `bits` bits, or of eight if that is more, with `k` probes per key.
    pub fn new(key: &[u8; 16], bits: usize, k: u32) -> (t: Self)
        ensures
            t.wf(),
            t.counts@ == Seq::new(if bits < 8 { 8 } else { bits as nat }, |i: int| 0u8),
            t.shown() == Seq::new(t.counts.len() as nat, |i: int| false),
            t.k == k,
            t.key == *key,
            t.saturated == 0,
    {
        let n: usize = if bits < 8 { 8 } else { bits };
        let octets: usize = n / 8 + if n % 8 != 0 { 1 } else { 0 };
        let t = Table {
            counts: vec![0u8; n],
            mirror: vec![0u8; octets],
            k,
            key: *key,
            saturated: 0,
        };
        proof {
            assert(t.counts@ =~= Seq::new(if bits < 8 { 8 } else { bits as nat }, |i: int| 0u8));
            assert forall|i: int| 0 <= i < 8 * octets implies !(#[trigger] bits::octet_bit(
                t.mirror@,
                i,
            )) by {
                bits::lemma_bit_of_zero(i % 8);
            }
            assert(t.shown() =~= Seq::new(t.counts.len() as nat, |i: int| false));
        }
        t
    }

    /// The bits that `name` probes.
    pub fn positions(&self, name: &[u8]) -> (out: Vec<usize>)
        requires
            self.wf(),
        ensures
            out@.map_values(|p: usize| p as int) == self.spots(name@),
            in_range(self.spots(name@), self.counts.len() as int),
    {
        let h1: u64 = tier0::name_hash(&self.key, name);
        let mut key2: [u8; 16] = self.key;
        let b: u8 = key2[0];
        key2[0] = b ^ 0x5a;
        assert(key2@ =~= table_key2(self.key@));
        let h2: u64 = tier0::name_hash(&key2, name);
        probe_spots(h1, h2, self.counts.len(), self.k)
    }

    /// Counts one key in. The mirror follows at the next `sync`. A counter that
    /// is full stays full and is reported by `anomalies`.
    pub fn insert(&mut self, name: &[u8])
        requires
            old(self).wf(),
            old(self).saturated + old(self).k <= u32::MAX,
        ensures
            final(self).wf(),
            final(self).same_shape(*old(self)),
            final(self).mirror == old(self).mirror,
            final(self).counts@ == counted_up(old(self).counts@, old(self).spots(name@)),
            final(self).saturated == old(self).saturated + overflows(
                old(self).counts@,
                old(self).spots(name@),
            ),
            stepped(*old(self), TableOp::Insert(name@), *final(self)),
    {
        let at: Vec<usize> = self.positions(name);
        let ghost all = at@.map_values(|p: usize| p as int);
        let ghost before = self.counts@;
        let mut i: usize = 0;
        assert(counted_up(before, all.take(0)) =~= before);
        while i < at.len()
            invariant
                i <= at.len(),
                at.len() == old(self).k,
                all == at@.map_values(|p: usize| p as int),
                all == old(self).spots(name@),
                in_range(all, before.len() as int),
                before == old(self).counts@,
                old(self).wf(),
                old(self).saturated + old(self).k <= u32::MAX,
                self.same_shape(*old(self)),
                self.mirror == old(self).mirror,
                self.counts@ == counted_up(before, all.take(i as int)),
                self.saturated == old(self).saturated + overflows(before, all.take(i as int)),
            decreases at.len() - i,
        {
            let p: usize = at[i];
            assert(all[i as int] == p);
            let ghost done = all.take(i as int);
            proof {
                lemma_overflows_bound(before, done);
            }
            let c: u8 = self.counts[p];
            if c == 255 {
                self.saturated = self.saturated + 1;
            } else {
                self.counts[p] = c + 1;
            }
            i = i + 1;
            proof {
                assert(all.take(i as int).drop_last() =~= done);
                assert(all.take(i as int).last() == p);
                assert(self.counts@ =~= counted_up(before, all.take(i as int)));
            }
        }
        assert(all.take(i as int) =~= all);
    }

    /// Counts one key out. A counter that is already empty stays empty and is
    /// reported by `anomalies`.
    pub fn remove(&mut self, name: &[u8])
        requires
            old(self).wf(),
            old(self).saturated + old(self).k <= u32::MAX,
        ensures
            final(self).wf(),
            final(self).same_shape(*old(self)),
            final(self).mirror == old(self).mirror,
            final(self).counts@ == counted_down(old(self).counts@, old(self).spots(name@)),
            final(self).saturated == old(self).saturated + underflows(
                old(self).counts@,
                old(self).spots(name@),
            ),
            stepped(*old(self), TableOp::Remove(name@), *final(self)),
    {
        let at: Vec<usize> = self.positions(name);
        let ghost all = at@.map_values(|p: usize| p as int);
        let ghost before = self.counts@;
        let mut i: usize = 0;
        assert(counted_down(before, all.take(0)) =~= before);
        while i < at.len()
            invariant
                i <= at.len(),
                at.len() == old(self).k,
                all == at@.map_values(|p: usize| p as int),
                all == old(self).spots(name@),
                in_range(all, before.len() as int),
                before == old(self).counts@,
                old(self).wf(),
                old(self).saturated + old(self).k <= u32::MAX,
                self.same_shape(*old(self)),
                self.mirror == old(self).mirror,
                self.counts@ == counted_down(before, all.take(i as int)),
                self.saturated == old(self).saturated + underflows(before, all.take(i as int)),
            decreases at.len() - i,
        {
            let p: usize = at[i];
            assert(all[i as int] == p);
            let ghost done = all.take(i as int);
            proof {
                lemma_overflows_bound(before, done);
            }
            let c: u8 = self.counts[p];
            if c == 0 {
                self.saturated = self.saturated + 1;
            } else {
                self.counts[p] = c - 1;
            }
            i = i + 1;
            proof {
                assert(all.take(i as int).drop_last() =~= done);
                assert(all.take(i as int).last() == p);
                assert(self.counts@ =~= counted_down(before, all.take(i as int)));
            }
        }
        assert(all.take(i as int) =~= all);
    }

    /// Refreshes the mirror, setting before clearing, and reports every bit write
    /// in the order in which it was made.
    pub fn sync_observed(&mut self) -> (writes: Vec<(usize, bool)>)
        requires
            old(self).wf(),
        ensures
            final(self).wf(),
            final(self).same_shape(*old(self)),
            final(self).counts == old(self).counts,
            final(self).saturated == old(self).saturated,
            final(self).shown() == truth(old(self).counts@),
            writes@ == refresh_writes(old(self).shown(), old(self).counts@),
    {
        let m: usize = self.counts.len();
        let ghost set = self.shown();
        let ghost counts = self.counts@;
        let mut writes: Vec<(usize, bool)> = Vec::new();
        let mut i: usize = 0;
        while i < m
            invariant
                i <= m,
                m == counts.len(),
                counts == old(self).counts@,
                set == old(self).shown(),
                self.wf(),
                self.same_shape(*old(self)),
                self.counts == old(self).counts,
                self.saturated == old(self).saturated,
                writes@ == to_set(set, counts, i as int),
                forall|j: int|
                    0 <= j < m ==> #[trigger] self.shown()[j] == (set[j] || j < i && counts[j] != 0),
            decreases m - i,
        {
            let ghost before = *self;
            assert(self.shown()[i as int] == set[i as int]);
            if self.counts[i] != 0 && !read_bit(&self.mirror, i) {
                write_bit(&mut self.mirror, i, true);
                writes.push((i, true));
                proof {
                    assert forall|j: int| 0 <= j < m implies #[trigger] self.shown()[j] == (set[j]
                        || j < i + 1 && counts[j] != 0) by {
                        assert(before.shown()[j] == bits::octet_bit(before.mirror@, j));
                    }
                }
            } else {
                assert forall|j: int| 0 <= j < m implies #[trigger] self.shown()[j] == (set[j]
                    || j < i + 1 && counts[j] != 0) by {
                    assert(before.shown()[j] == (set[j] || j < i && counts[j] != 0));
                }
            }
            i = i + 1;
        }
        let ghost sets = writes@;
        i = 0;
        while i < m
            invariant
                i <= m,
                m == counts.len(),
                counts == old(self).counts@,
                set == old(self).shown(),
                self.wf(),
                self.same_shape(*old(self)),
                self.counts == old(self).counts,
                self.saturated == old(self).saturated,
                sets == to_set(set, counts, m as int),
                writes@ == sets + to_clear(set, counts, i as int),
                forall|j: int|
                    0 <= j < m ==> #[trigger] self.shown()[j] == (if j < i {
                        counts[j] != 0
                    } else {
                        set[j] || counts[j] != 0
                    }),
            decreases m - i,
        {
            let ghost before = *self;
            assert(self.shown()[i as int] == (set[i as int] || counts[i as int] != 0));
            if self.counts[i] == 0 && read_bit(&self.mirror, i) {
                write_bit(&mut self.mirror, i, false);
                writes.push((i, false));
                proof {
                    assert forall|j: int| 0 <= j < m implies #[trigger] self.shown()[j] == (if j < i
                        + 1 {
                        counts[j] != 0
                    } else {
                        set[j] || counts[j] != 0
                    }) by {
                        assert(before.shown()[j] == bits::octet_bit(before.mirror@, j));
                    }
                    assert(writes@ =~= sets + to_clear(set, counts, i + 1));
                }
            } else {
                assert forall|j: int| 0 <= j < m implies #[trigger] self.shown()[j] == (if j < i
                    + 1 {
                    counts[j] != 0
                } else {
                    set[j] || counts[j] != 0
                }) by {
                    assert(before.shown()[j] == before.shown()[j]);
                }
            }
            i = i + 1;
        }
        assert(self.shown() =~= truth(counts));
        writes
    }

    /// Refreshes the mirror.
    pub fn sync(&mut self)
        requires
            old(self).wf(),
        ensures
            final(self).wf(),
            final(self).same_shape(*old(self)),
            final(self).counts == old(self).counts,
            final(self).saturated == old(self).saturated,
            final(self).shown() == truth(old(self).counts@),
            stepped(*old(self), TableOp::Sync, *final(self)),
    {
        let _writes = self.sync_observed();
    }

    /// Is `name` possibly present? Reads the mirror only.
    pub fn may_contain(&self, name: &[u8]) -> (r: bool)
        requires
            self.wf(),
        ensures
            r == self.has(name@),
    {
        let at: Vec<usize> = self.positions(name);
        let ghost all = at@.map_values(|p: usize| p as int);
        let mut i: usize = 0;
        while i < at.len()
            invariant
                i <= at.len(),
                all == at@.map_values(|p: usize| p as int),
                all == self.spots(name@),
                in_range(all, self.counts.len() as int),
                self.wf(),
                forall|j: int| 0 <= j < i ==> self.shown()[#[trigger] all[j]],
            decreases at.len() - i,
        {
            let p: usize = at[i];
            assert(all[i as int] == p);
            if !read_bit(&self.mirror, p) {
                assert(!self.shown()[all[i as int]]);
                return false;
            }
            assert(self.shown()[all[i as int]]);
            i = i + 1;
        }
        true
    }

    /// How many bits of the mirror are set.
    pub fn popcount(&self) -> (n: u32)
        requires
            self.wf(),
            self.counts.len() <= u32::MAX,
        ensures
            n == ones(self.shown(), self.counts.len() as int),
    {
        let mut n: u32 = 0;
        let mut i: usize = 0;
        while i < self.counts.len()
            invariant
                i <= self.counts.len() <= u32::MAX,
                self.wf(),
                n == ones(self.shown(), i as int),
                n <= i,
            decreases self.counts.len() - i,
        {
            assert(self.shown()[i as int] == bits::octet_bit(self.mirror@, i as int));
            if read_bit(&self.mirror, i) {
                n = n + 1;
            }
            i = i + 1;
        }
        n
    }

    /// Counter overflows and underflows so far. A table with any is degraded and
    /// does not heal.
    pub fn anomalies(&self) -> (n: u32)
        ensures
            n == self.saturated,
    {
        self.saturated
    }
}

// ---------------------------------------------------------------------------
// The three tables
// ---------------------------------------------------------------------------

/// What a lookup concluded.
#[derive(Debug, Clone, Copy, PartialEq, Eq, Structural)]
pub struct Verdict {
    /// A registered prefix may cover the name.
    pub fib: bool,
    /// An outstanding Interest may match.
    pub pit: bool,
    /// Something cached may be under the name.
    pub cs: bool,
}

impl Verdict {
    /// Nothing matched: the frame is of no interest to this node.
    pub fn is_miss(&self) -> (r: bool)
        ensures
            r == (!self.fib && !self.pit && !self.cs),
    {
        !self.fib && !self.pit && !self.cs
    }
}

/// The table has one of the prefixes of `name`, at whatever depth.
pub open spec fn covers(table: Table, name: Seq<u8>) -> bool {
    exists|i: int|
        0 <= i < tier0::all_prefixes(name).len() && table.has(
            #[trigger] tier0::all_prefixes(name)[i],
        )
}

/// Does `table` have one of the prefixes of `name`?
fn any_prefix(table: &Table, name: &[u8]) -> (r: bool)
    requires
        table.wf(),
    ensures
        r == covers(*table, name@),
{
    let list: Vec<Vec<u8>> = tier0::every_prefix(name);
    let ghost views = list@.map_values(|p: Vec<u8>| p@);
    let mut i: usize = 0;
    while i < list.len()
        invariant
            i <= list.len(),
            table.wf(),
            views == list@.map_values(|p: Vec<u8>| p@),
            views == tier0::all_prefixes(name@),
            forall|j: int| 0 <= j < i ==> !table.has(#[trigger] tier0::all_prefixes(name@)[j]),
        decreases list.len() - i,
    {
        assert(views[i as int] == list[i as int]@);
        if table.may_contain(list[i].as_slice()) {
            assert(table.has(tier0::all_prefixes(name@)[i as int]));
            return true;
        }
        i = i + 1;
    }
    false
}

/// The three tables and the rule that keeps covered names out of the third.
pub struct Tier1 {
    /// Registered prefixes.
    pub fib: Table,
    /// Outstanding Interests.
    pub pit: Table,
    /// Every prefix of every cached name.
    pub cs: Table,
    /// Leave a cached name out of `cs` when a registered prefix covers it: the
    /// frame is admitted by `fib` already.
    pub basic_cs: bool,
    /// Names left out so.
    pub cs_skipped: u32,
}

impl Tier1 {
    /// The three tables are well formed.
    pub open spec fn wf(&self) -> bool {
        self.fib.wf() && self.pit.wf() && self.cs.wf()
    }

    /// What a lookup of `name` answers.
    pub open spec fn verdict(&self, name: Seq<u8>) -> Verdict {
        Verdict {
            fib: covers(self.fib, name),
            pit: covers(self.pit, name),
            cs: self.cs.has(name),
        }
    }

    /// Three empty tables of `bits_each` bits with `k` probes per key.
    pub fn new(key: &[u8; 16], bits_each: usize, k: u32) -> (t: Self)
        ensures
            t.wf(),
            t.fib.counts@ == Seq::new(if bits_each < 8 { 8 } else { bits_each as nat }, |i: int| 0u8),
            t.fib.shown() == Seq::new(t.fib.counts.len() as nat, |i: int| false),
            t.fib.k == k,
            t.fib.key == *key,
            t.fib.saturated == 0,
            t.pit.same_shape(t.fib) && t.pit.counts@ == t.fib.counts@ && t.pit.shown()
                == t.fib.shown() && t.pit.saturated == 0,
            t.cs.same_shape(t.fib) && t.cs.counts@ == t.fib.counts@ && t.cs.shown()
                == t.fib.shown() && t.cs.saturated == 0,
            t.basic_cs,
            t.cs_skipped == 0,
    {
        Tier1 {
            fib: Table::new(key, bits_each, k),
            pit: Table::new(key, bits_each, k),
            cs: Table::new(key, bits_each, k),
            basic_cs: true,
            cs_skipped: 0,
        }
    }

    /// Registers a prefix.
    pub fn register_prefix(&mut self, prefix: &[u8])
        requires
            old(self).wf(),
            old(self).fib.saturated + old(self).fib.k <= u32::MAX,
        ensures
            final(self).wf(),
            final(self).fib.same_shape(old(self).fib),
            final(self).fib.mirror == old(self).fib.mirror,
            final(self).fib.counts@ == counted_up(
                old(self).fib.counts@,
                old(self).fib.spots(prefix@),
            ),
            final(self).fib.saturated == old(self).fib.saturated + overflows(
                old(self).fib.counts@,
                old(self).fib.spots(prefix@),
            ),
            final(self).pit == old(self).pit,
            final(self).cs == old(self).cs,
            final(self).basic_cs == old(self).basic_cs,
            final(self).cs_skipped == old(self).cs_skipped,
    {
        self.fib.insert(prefix);
    }

    /// Records an outstanding Interest.
    pub fn add_pit(&mut self, name: &[u8])
        requires
            old(self).wf(),
            old(self).pit.saturated + old(self).pit.k <= u32::MAX,
        ensures
            final(self).wf(),
            final(self).pit.same_shape(old(self).pit),
            final(self).pit.mirror == old(self).pit.mirror,
            final(self).pit.counts@ == counted_up(
                old(self).pit.counts@,
                old(self).pit.spots(name@),
            ),
            final(self).pit.saturated == old(self).pit.saturated + overflows(
                old(self).pit.counts@,
                old(self).pit.spots(name@),
            ),
            final(self).fib == old(self).fib,
            final(self).cs == old(self).cs,
            final(self).basic_cs == old(self).basic_cs,
            final(self).cs_skipped == old(self).cs_skipped,
    {
        self.pit.insert(name);
    }

    /// Forgets an Interest that was satisfied.
    pub fn remove_pit(&mut self, name: &[u8])
        requires
            old(self).wf(),
            old(self).pit.saturated + old(self).pit.k <= u32::MAX,
        ensures
            final(self).wf(),
            final(self).pit.same_shape(old(self).pit),
            final(self).pit.mirror == old(self).pit.mirror,
            final(self).pit.counts@ == counted_down(
                old(self).pit.counts@,
                old(self).pit.spots(name@),
            ),
            final(self).pit.saturated == old(self).pit.saturated + underflows(
                old(self).pit.counts@,
                old(self).pit.spots(name@),
            ),
            final(self).fib == old(self).fib,
            final(self).cs == old(self).cs,
            final(self).basic_cs == old(self).basic_cs,
            final(self).cs_skipped == old(self).cs_skipped,
    {
        self.pit.remove(name);
    }

    /// Caches a Data name. Every prefix of it is inserted, so that an Interest
    /// for a prefix finds it. A name that the published `fib` covers is counted
    /// in `cs_skipped` instead, where `basic_cs` asks for that.
    pub fn cache(&mut self, name: &[u8])
        requires
            old(self).wf(),
            old(self).cs.saturated + tier0::all_prefixes(name@).len() * old(self).cs.k <= u32::MAX,
            old(self).cs_skipped < u32::MAX,
        ensures
            final(self).wf(),
            final(self).fib == old(self).fib,
            final(self).pit == old(self).pit,
            final(self).basic_cs == old(self).basic_cs,
            old(self).basic_cs && covers(old(self).fib, name@) ==> final(self).cs == old(self).cs
                && final(self).cs_skipped == old(self).cs_skipped + 1,
            !(old(self).basic_cs && covers(old(self).fib, name@)) ==> {
                let at = all_probes(
                    old(self).cs.key@,
                    tier0::all_prefixes(name@),
                    old(self).cs.counts.len() as u64,
                    old(self).cs.k as int,
                );
                &&& final(self).cs_skipped == old(self).cs_skipped
                &&& final(self).cs.same_shape(old(self).cs)
                &&& final(self).cs.mirror == old(self).cs.mirror
                &&& final(self).cs.counts@ == counted_up(old(self).cs.counts@, at)
                &&& final(self).cs.saturated == old(self).cs.saturated + overflows(
                    old(self).cs.counts@,
                    at,
                )
            },
    {
        if self.basic_cs && self.fib_covers(name) {
            self.cs_skipped = self.cs_skipped + 1;
            return;
        }
        let list: Vec<Vec<u8>> = tier0::every_prefix(name);
        let ghost views = list@.map_values(|p: Vec<u8>| p@);
        let ghost key = self.cs.key@;
        let ghost m = self.cs.counts.len() as u64;
        let ghost k = self.cs.k as int;
        let ghost before = self.cs.counts@;
        proof {
            assert(views.take(0) =~= Seq::empty());
            assert(counted_up(before, Seq::empty()) =~= before);
        }
        let mut i: usize = 0;
        while i < list.len()
            invariant
                i <= list.len(),
                views == tier0::all_prefixes(name@),
                views == list@.map_values(|p: Vec<u8>| p@),
                key == old(self).cs.key@,
                m == old(self).cs.counts.len() as u64,
                k == old(self).cs.k,
                before == old(self).cs.counts@,
                old(self).wf(),
                old(self).cs.saturated + views.len() * k <= u32::MAX,
                self.wf(),
                self.fib == old(self).fib,
                self.pit == old(self).pit,
                self.basic_cs == old(self).basic_cs,
                self.cs_skipped == old(self).cs_skipped,
                self.cs.same_shape(old(self).cs),
                self.cs.mirror == old(self).cs.mirror,
                in_range(all_probes(key, views.take(i as int), m, k), m as int),
                all_probes(key, views.take(i as int), m, k).len() == i * k,
                self.cs.counts@ == counted_up(before, all_probes(key, views.take(i as int), m, k)),
                self.cs.saturated == old(self).cs.saturated + overflows(
                    before,
                    all_probes(key, views.take(i as int), m, k),
                ),
            decreases list.len() - i,
        {
            let ghost done = all_probes(key, views.take(i as int), m, k);
            let ghost next = name_probes(key, views[i as int], m, k);
            proof {
                lemma_overflows_bound(before, done);
                assert((i + 1) * k <= views.len() * k) by (nonlinear_arith)
                    requires
                        i + 1 <= views.len(),
                        k >= 0,
                ;
                assert(views.take(i + 1).drop_last() =~= views.take(i as int));
                assert(views.take(i + 1).last() == views[i as int]);
                assert((i + 1) * k == i * k + k) by (nonlinear_arith);
                assert(in_range(done + next, m as int)) by {
                    assert forall|j: int| 0 <= j < (done + next).len() implies 0
                        <= #[trigger] (done + next)[j] < m by {
                        if j < done.len() {
                            assert((done + next)[j] == done[j]);
                        } else {
                            assert((done + next)[j] == next[j - done.len()]);
                        }
                    }
                }
                lemma_counted_up_add(before, done, next);
            }
            self.cs.insert(list[i].as_slice());
            i = i + 1;
        }
        assert(views.take(i as int) =~= views);
    }

    /// Does a registered prefix cover `name`, as far as the published `fib` tells?
    pub fn fib_covers(&self, name: &[u8]) -> (r: bool)
        requires
            self.wf(),
        ensures
            r == covers(self.fib, name@),
    {
        any_prefix(&self.fib, name)
    }

    /// Publishes the three mirrors.
    pub fn sync(&mut self)
        requires
            old(self).wf(),
        ensures
            final(self).wf(),
            final(self).fib.same_shape(old(self).fib) && final(self).fib.counts
                == old(self).fib.counts && final(self).fib.saturated == old(self).fib.saturated,
            final(self).pit.same_shape(old(self).pit) && final(self).pit.counts
                == old(self).pit.counts && final(self).pit.saturated == old(self).pit.saturated,
            final(self).cs.same_shape(old(self).cs) && final(self).cs.counts == old(self).cs.counts
                && final(self).cs.saturated == old(self).cs.saturated,
            final(self).fib.shown() == truth(old(self).fib.counts@),
            final(self).pit.shown() == truth(old(self).pit.counts@),
            final(self).cs.shown() == truth(old(self).cs.counts@),
            final(self).basic_cs == old(self).basic_cs,
            final(self).cs_skipped == old(self).cs_skipped,
    {
        self.fib.sync();
        self.pit.sync();
        self.cs.sync();
    }

    /// The Tier-1 query on a parsed name. Registered prefixes and Interests are
    /// looked up by every prefix of the name; the cache holds every prefix of its
    /// names, so one probe tells whether the name is a prefix of something cached.
    pub fn lookup(&self, name: &[u8]) -> (v: Verdict)
        requires
            self.wf(),
        ensures
            v == self.verdict(name@),
    {
        Verdict {
            fib: self.fib_covers(name),
            pit: any_prefix(&self.pit, name),
            cs: self.cs.may_contain(name),
        }
    }

    /// Cached names left out of `cs`.
    pub fn cs_skipped(&self) -> (n: u32)
        ensures
            n == self.cs_skipped,
    {
        self.cs_skipped
    }
}

// ---------------------------------------------------------------------------
// Laws
// ---------------------------------------------------------------------------

/// A key that was counted in is found once the mirror is published, and stays so
/// whatever is counted in after it.
pub proof fn law_inserted_key_is_found(counts: Seq<u8>, at: Seq<int>, later: Seq<int>)
    requires
        in_range(at, counts.len() as int),
    ensures
        holds(truth(counted_up(counts, at)), at),
        holds(truth(counted_up(counted_up(counts, at), later)), at),
{
    assert forall|i: int| 0 <= i < at.len() implies truth(counted_up(counts, at))[#[trigger] at[i]]
        && truth(counted_up(counted_up(counts, at), later))[at[i]] by {
        lemma_occurs(at, i);
    }
}

/// How often the operations count `name` in, less how often they count it out.
pub open spec fn balance(ops: Seq<TableOp>, name: Seq<u8>) -> int
    decreases ops.len(),
{
    if ops.len() == 0 {
        0
    } else {
        balance(ops.drop_last(), name) + match ops.last() {
            TableOp::Insert(n) => if n == name { 1int } else { 0int },
            TableOp::Remove(n) => if n == name { -1int } else { 0int },
            TableOp::Sync => 0int,
        }
    }
}

/// Every removal matches an earlier insertion of the same name that no removal
/// matched before.
pub open spec fn matched(ops: Seq<TableOp>) -> bool
    decreases ops.len(),
{
    if ops.len() == 0 {
        true
    } else {
        &&& matched(ops.drop_last())
        &&& ops.last() matches TableOp::Remove(n) ==> balance(ops.drop_last(), n) > 0
    }
}

/// How often one of the names probes bit `i`.
spec fn probed(t: Table, names: Seq<Seq<u8>>, i: int) -> nat
    decreases names.len(),
{
    if names.len() == 0 {
        0
    } else {
        probed(t, names.drop_last(), i) + occurrences(t.spots(names.last()), i)
    }
}

/// How often `name` stands in the list.
spec fn copies(names: Seq<Seq<u8>>, name: Seq<u8>) -> nat
    decreases names.len(),
{
    if names.len() == 0 {
        0
    } else {
        copies(names.drop_last(), name) + if names.last() == name { 1nat } else { 0nat }
    }
}

proof fn lemma_exact_up(counts: Seq<u8>, at: Seq<int>, i: int)
    requires
        overflows(counts, at) == 0,
    ensures
        counts[i] + occurrences(at, i) <= 255,
    decreases at.len(),
{
    if at.len() > 0 {
        lemma_exact_up(counts, at.drop_last(), i);
    }
}

proof fn lemma_exact_down(counts: Seq<u8>, at: Seq<int>, i: int)
    requires
        underflows(counts, at) == 0,
    ensures
        counts[i] >= occurrences(at, i),
    decreases at.len(),
{
    if at.len() > 0 {
        lemma_exact_down(counts, at.drop_last(), i);
    }
}

proof fn lemma_no_underflow(counts: Seq<u8>, at: Seq<int>)
    requires
        in_range(at, counts.len() as int),
        forall|i: int| 0 <= i < counts.len() ==> #[trigger] counts[i] >= occurrences(at, i),
    ensures
        underflows(counts, at) == 0,
    decreases at.len(),
{
    if at.len() > 0 {
        let head = at.drop_last();
        assert(0 <= at[at.len() - 1] < counts.len());
        assert forall|i: int| 0 <= i < head.len() implies 0 <= #[trigger] head[i] < counts.len() by {
            assert(head[i] == at[i]);
        }
        assert forall|i: int| 0 <= i < counts.len() implies #[trigger] counts[i] >= occurrences(
            head,
            i,
        ) by {}
        lemma_no_underflow(counts, head);
        assert(counts[at.last()] >= occurrences(at, at.last()));
    }
}

/// Taking one name out of the list takes its probes out, and no others.
proof fn lemma_without_one(t: Table, names: Seq<Seq<u8>>, name: Seq<u8>) -> (rest: Seq<Seq<u8>>)
    requires
        copies(names, name) > 0,
    ensures
        forall|x: Seq<u8>| #[trigger]
            copies(rest, x) == copies(names, x) - if x == name { 1int } else { 0int },
        forall|i: int| #[trigger]
            probed(t, rest, i) + occurrences(t.spots(name), i) == probed(t, names, i),
    decreases names.len(),
{
    let head = names.drop_last();
    if names.last() == name {
        head
    } else {
        let less = lemma_without_one(t, head, name);
        let rest = less.push(names.last());
        assert(rest.drop_last() =~= less);
        assert forall|x: Seq<u8>| #[trigger]
            copies(rest, x) == copies(names, x) - if x == name { 1int } else { 0int } by {
            assert(copies(less, x) == copies(head, x) - if x == name { 1int } else { 0int });
        }
        assert forall|i: int| #[trigger]
            probed(t, rest, i) + occurrences(t.spots(name), i) == probed(t, names, i) by {
            assert(probed(t, less, i) + occurrences(t.spots(name), i) == probed(t, head, i));
        }
        rest
    }
}

/// A listed name probes its bits at least once for each probe it has.
proof fn lemma_listed_name_probes(t: Table, names: Seq<Seq<u8>>, name: Seq<u8>, i: int)
    requires
        copies(names, name) > 0,
    ensures
        probed(t, names, i) >= occurrences(t.spots(name), i),
{
    let rest = lemma_without_one(t, names, name);
    assert(probed(t, rest, i) + occurrences(t.spots(name), i) == probed(t, names, i));
}

/// A history of a table: it starts empty and each state comes from the one before by
/// the operation between them.
pub open spec fn history(states: Seq<Table>, ops: Seq<TableOp>) -> bool {
    &&& states.len() == ops.len() + 1
    &&& states[0].wf()
    &&& states[0].counts@ == Seq::new(states[0].counts.len() as nat, |i: int| 0u8)
    &&& states[0].saturated == 0
    &&& forall|j: int|
        0 <= j < ops.len() ==> stepped(#[trigger] states[j], ops[j], states[j + 1])
}

/// Without an anomaly the counters are exactly what the names that are still in
/// make of them.
proof fn lemma_counts_are_exact(states: Seq<Table>, ops: Seq<TableOp>) -> (live: Seq<Seq<u8>>)
    requires
        history(states, ops),
        matched(ops),
        states.last().saturated == 0,
    ensures
        states.last().same_shape(states[0]),
        forall|x: Seq<u8>| #[trigger] copies(live, x) == balance(ops, x),
        forall|i: int|
            0 <= i < states[0].counts.len() ==> #[trigger] states.last().counts@[i] == probed(
                states[0],
                live,
                i,
            ),
    decreases ops.len(),
{
    let t = states[0];
    if ops.len() == 0 {
        Seq::empty()
    } else {
        let earlier = states.drop_last();
        let done = ops.drop_last();
        let last = ops.len() - 1;
        assert(history(earlier, done)) by {
            assert(earlier[0] == states[0]);
            assert forall|j: int| 0 <= j < done.len() implies stepped(
                #[trigger] earlier[j],
                done[j],
                earlier[j + 1],
            ) by {
                assert(stepped(states[j], ops[j], states[j + 1]));
            }
        }
        let s = states[last];
        assert(earlier.last() == s);
        assert(stepped(s, ops[last], states[last + 1]));
        assert(states[last + 1] == states.last());
        assert(ops[last] == ops.last());
        let live = lemma_counts_are_exact(earlier, done);
        match ops.last() {
            TableOp::Insert(n) => {
                let next = live.push(n);
                assert(next.drop_last() =~= live);
                assert(s.spots(n) == t.spots(n));
                assert forall|i: int| 0 <= i < t.counts.len() implies #[trigger] states.last().counts@[i]
                    == probed(t, next, i) by {
                    assert(s.counts@[i] == probed(t, live, i));
                    lemma_exact_up(s.counts@, s.spots(n), i);
                }
                assert forall|x: Seq<u8>| #[trigger] copies(next, x) == balance(ops, x) by {
                    assert(copies(live, x) == balance(done, x));
                }
                next
            },
            TableOp::Remove(n) => {
                assert(copies(live, n) == balance(done, n));
                let next = lemma_without_one(t, live, n);
                assert(s.spots(n) == t.spots(n));
                assert forall|i: int| 0 <= i < t.counts.len() implies #[trigger] states.last().counts@[i]
                    == probed(t, next, i) by {
                    assert(s.counts@[i] == probed(t, live, i));
                    assert(probed(t, next, i) + occurrences(t.spots(n), i) == probed(t, live, i));
                    lemma_exact_down(s.counts@, s.spots(n), i);
                }
                assert forall|x: Seq<u8>| #[trigger] copies(next, x) == balance(ops, x) by {
                    assert(copies(live, x) == balance(done, x));
                }
                next
            },
            TableOp::Sync => {
                assert forall|i: int| 0 <= i < t.counts.len() implies #[trigger] states.last().counts@[i]
                    == probed(t, live, i) by {
                    assert(s.counts@[i] == probed(t, live, i));
                }
                assert forall|x: Seq<u8>| #[trigger] copies(live, x) == balance(ops, x) by {
                    assert(copies(live, x) == balance(done, x));
                }
                live
            },
        }
    }
}

/// No false negative, whatever happened: over any history of a table in which every
/// removal matches an insertion and no counter ran over, a name that was inserted
/// more often than it was removed is found once the mirror is refreshed.
pub proof fn law_live_names_are_found(
    states: Seq<Table>,
    ops: Seq<TableOp>,
    published: Table,
    name: Seq<u8>,
)
    requires
        history(states, ops),
        matched(ops),
        states.last().saturated == 0,
        balance(ops, name) > 0,
        stepped(states.last(), TableOp::Sync, published),
    ensures
        published.has(name),
{
    let t = states[0];
    let live = lemma_counts_are_exact(states, ops);
    let at = published.spots(name);
    assert(at == t.spots(name));
    lemma_spots_in_range(t, name);
    assert(copies(live, name) == balance(ops, name));
    assert forall|i: int| 0 <= i < at.len() implies published.shown()[#[trigger] at[i]] by {
        lemma_occurs(at, i);
        lemma_listed_name_probes(t, live, name, at[i]);
        assert(states.last().counts@[at[i]] == probed(t, live, at[i]));
    }
}

/// A fresh table that probes at all has no name.
pub proof fn law_fresh_table_has_no_name(t: Table, name: Seq<u8>)
    requires
        t.wf(),
        t.k >= 1,
        t.shown() == Seq::new(t.counts.len() as nat, |i: int| false),
    ensures
        !t.has(name),
{
    lemma_spots_in_range(t, name);
    let p = t.spots(name)[0];
    assert(!t.shown()[p]);
}

/// Counting a key out undoes counting it in, unless a counter ran full: the counters,
/// the mirror and the anomalies are as before. So once published, the table shows
/// the same bits and has the same names as if neither had happened.
pub proof fn law_removal_undoes_insertion(
    before: Table,
    inserted: Table,
    removed: Table,
    name: Seq<u8>,
    published: Table,
    untouched: Table,
)
    requires
        before.wf(),
        stepped(before, TableOp::Insert(name), inserted),
        inserted.saturated == before.saturated,
        stepped(inserted, TableOp::Remove(name), removed),
        stepped(removed, TableOp::Sync, published),
        stepped(before, TableOp::Sync, untouched),
    ensures
        removed.counts@ == before.counts@,
        removed.mirror == before.mirror,
        removed.saturated == before.saturated,
        published.shown() == untouched.shown(),
        ones(published.shown(), published.counts.len() as int) == ones(
            untouched.shown(),
            untouched.counts.len() as int,
        ),
        forall|x: Seq<u8>| #[trigger] published.has(x) == untouched.has(x),
{
    let at = before.spots(name);
    lemma_spots_in_range(before, name);
    assert(inserted.spots(name) == at);
    assert forall|i: int| 0 <= i < before.counts.len() implies #[trigger] inserted.counts@[i]
        == before.counts@[i] + occurrences(at, i) by {
        lemma_exact_up(before.counts@, at, i);
    }
    lemma_no_underflow(inserted.counts@, at);
    assert(removed.counts@ =~= before.counts@);
    assert forall|x: Seq<u8>| #[trigger] published.has(x) == untouched.has(x) by {
        assert(published.spots(x) == untouched.spots(x));
    }
}

/// While no counter ran full, counting one key out leaves another that is also
/// counted in where it is.
pub proof fn law_removal_keeps_other_keys(counts: Seq<u8>, kept: Seq<int>, gone: Seq<int>)
    requires
        in_range(kept, counts.len() as int),
        forall|i: int|
            0 <= i < counts.len() ==> #[trigger] counts[i] >= occurrences(kept, i) + occurrences(
                gone,
                i,
            ),
    ensures
        holds(truth(counted_down(counts, gone)), kept),
{
    assert forall|i: int| 0 <= i < kept.len() implies truth(
        counted_down(counts, gone),
    )[#[trigger] kept[i]] by {
        lemma_occurs(kept, i);
        assert(counts[kept[i]] >= occurrences(kept, kept[i]) + occurrences(gone, kept[i]));
    }
}

proof fn lemma_spots_in_range(t: Table, name: Seq<u8>)
    requires
        t.wf(),
    ensures
        in_range(t.spots(name), t.counts.len() as int),
{
    let m = t.counts.len() as u64;
    assert(m == t.counts.len());
}

/// A registered prefix covers every name under it, once published: a lookup of the
/// name hits, whatever the depth of either.
pub proof fn law_registered_prefix_covers(
    before: Table,
    after: Table,
    prefix: Seq<u8>,
    name: Seq<u8>,
)
    requires
        before.wf(),
        after.same_shape(before),
        after.shown() == truth(counted_up(before.counts@, before.spots(prefix))),
        tier0::is_under(name, prefix),
    ensures
        after.has(prefix),
        covers(after, name),
{
    lemma_spots_in_range(before, prefix);
    law_inserted_key_is_found(before.counts@, before.spots(prefix), Seq::empty());
    tier0::lemma_all_prefixes(name, prefix);
    let i = choose|i: int|
        0 <= i < tier0::all_prefixes(name).len() && tier0::all_prefixes(name)[i] == prefix;
    assert(after.has(tier0::all_prefixes(name)[i]));
}

/// An outstanding Interest is found, once published: a lookup of its own name, or of
/// any name under it, says that the Data is wanted.
pub proof fn law_outstanding_interest_is_found(
    before: Tier1,
    added: Tier1,
    published: Tier1,
    interest: Seq<u8>,
    name: Seq<u8>,
)
    requires
        before.wf(),
        added.pit.same_shape(before.pit),
        added.pit.counts@ == counted_up(before.pit.counts@, before.pit.spots(interest)),
        published.pit.same_shape(added.pit),
        published.pit.shown() == truth(added.pit.counts@),
        tier0::is_under(name, interest),
    ensures
        published.verdict(name).pit,
        interest.len() > 0 ==> published.verdict(interest).pit,
{
    law_registered_prefix_covers(before.pit, published.pit, interest, name);
    if interest.len() > 0 {
        law_registered_prefix_covers(before.pit, published.pit, interest, interest);
    }
}

proof fn lemma_all_probes_contains(
    key: Seq<u8>,
    list: Seq<Seq<u8>>,
    m: u64,
    k: int,
    i: int,
    j: int,
)
    requires
        0 <= i < list.len(),
        0 <= j < name_probes(key, list[i], m, k).len(),
    ensures
        exists|x: int|
            0 <= x < all_probes(key, list, m, k).len() && #[trigger] all_probes(key, list, m, k)[x]
                == name_probes(key, list[i], m, k)[j],
    decreases list.len(),
{
    let head = all_probes(key, list.drop_last(), m, k);
    let tail = name_probes(key, list.last(), m, k);
    assert(all_probes(key, list, m, k) == head + tail);
    if i < list.len() - 1 {
        assert(list.drop_last()[i] == list[i]);
        lemma_all_probes_contains(key, list.drop_last(), m, k, i, j);
        let x = choose|x: int|
            0 <= x < head.len() && #[trigger] head[x] == name_probes(key, list[i], m, k)[j];
        assert(all_probes(key, list, m, k)[x] == head[x]);
    } else {
        assert(all_probes(key, list, m, k)[head.len() + j] == tail[j]);
    }
}

proof fn lemma_all_probes_in_range(key: Seq<u8>, list: Seq<Seq<u8>>, m: u64, k: int)
    requires
        m > 0,
    ensures
        in_range(all_probes(key, list, m, k), m as int),
    decreases list.len(),
{
    if list.len() > 0 {
        lemma_all_probes_in_range(key, list.drop_last(), m, k);
        let head = all_probes(key, list.drop_last(), m, k);
        let tail = name_probes(key, list.last(), m, k);
        assert forall|x: int| 0 <= x < (head + tail).len() implies 0 <= #[trigger] (head + tail)[x]
            < m by {
            if x < head.len() {
                assert((head + tail)[x] == head[x]);
            } else {
                assert((head + tail)[x] == tail[x - head.len()]);
            }
        }
    }
}

/// A cached name answers an Interest for each of its prefixes and for itself, once
/// published: the direction that an in-frame filter cannot decide.
pub proof fn law_cached_name_answers_its_prefixes(
    before: Table,
    after: Table,
    name: Seq<u8>,
    prefix: Seq<u8>,
)
    requires
        before.wf(),
        after.same_shape(before),
        after.shown() == truth(
            counted_up(
                before.counts@,
                all_probes(
                    before.key@,
                    tier0::all_prefixes(name),
                    before.counts.len() as u64,
                    before.k as int,
                ),
            ),
        ),
        tier0::is_under(name, prefix),
    ensures
        after.has(prefix),
        name.len() > 0 ==> after.has(name),
{
    lemma_cached_prefix(before, after, name, prefix);
    if name.len() > 0 {
        lemma_cached_prefix(before, after, name, name);
    }
}

proof fn lemma_cached_prefix(before: Table, after: Table, name: Seq<u8>, prefix: Seq<u8>)
    requires
        before.wf(),
        after.same_shape(before),
        after.shown() == truth(
            counted_up(
                before.counts@,
                all_probes(
                    before.key@,
                    tier0::all_prefixes(name),
                    before.counts.len() as u64,
                    before.k as int,
                ),
            ),
        ),
        tier0::is_under(name, prefix),
    ensures
        after.has(prefix),
{
    let m = before.counts.len() as u64;
    let k = before.k as int;
    let list = tier0::all_prefixes(name);
    let at = all_probes(before.key@, list, m, k);
    lemma_all_probes_in_range(before.key@, list, m, k);
    law_inserted_key_is_found(before.counts@, at, Seq::empty());
    tier0::lemma_all_prefixes(name, prefix);
    let i = choose|i: int| 0 <= i < list.len() && list[i] == prefix;
    assert forall|j: int| 0 <= j < after.spots(prefix).len() implies after.shown()[#[trigger] after.spots(
        prefix,
    )[j]] by {
        lemma_all_probes_contains(before.key@, list, m, k, i, j);
        let x = choose|x: int|
            0 <= x < at.len() && #[trigger] at[x] == name_probes(before.key@, list[i], m, k)[j];
        assert(truth(counted_up(before.counts@, at))[at[x]]);
    }
}

/// A cached name is never a miss, once published. Where it went into the third table,
/// a lookup of it, or of any prefix of it, finds it there. Where it was left out, the
/// registered prefix that covered it still does, as long as that table shows no bit
/// that it does not count.
pub proof fn law_cached_name_is_no_miss(
    before: Tier1,
    cached: Tier1,
    published: Tier1,
    name: Seq<u8>,
    prefix: Seq<u8>,
)
    requires
        before.wf(),
        name.len() > 0,
        tier0::is_under(name, prefix),
        cached.fib == before.fib,
        !(before.basic_cs && covers(before.fib, name)) ==> cached.cs.same_shape(before.cs)
            && cached.cs.counts@ == counted_up(
            before.cs.counts@,
            all_probes(
                before.cs.key@,
                tier0::all_prefixes(name),
                before.cs.counts.len() as u64,
                before.cs.k as int,
            ),
        ),
        published.fib.same_shape(cached.fib),
        published.cs.same_shape(cached.cs),
        published.fib.shown() == truth(cached.fib.counts@),
        published.cs.shown() == truth(cached.cs.counts@),
        forall|i: int|
            0 <= i < before.fib.counts.len() && #[trigger] before.fib.shown()[i]
                ==> before.fib.counts[i] != 0,
    ensures
        !(before.basic_cs && covers(before.fib, name)) ==> published.verdict(name).cs
            && published.verdict(prefix).cs,
        before.basic_cs && covers(before.fib, name) ==> published.verdict(name).fib,
{
    if before.basic_cs && covers(before.fib, name) {
        let i = choose|i: int|
            0 <= i < tier0::all_prefixes(name).len() && before.fib.has(
                #[trigger] tier0::all_prefixes(name)[i],
            );
        let p = tier0::all_prefixes(name)[i];
        lemma_spots_in_range(before.fib, p);
        assert forall|j: int| 0 <= j < published.fib.spots(p).len() implies published.fib.shown()[
        #[trigger] published.fib.spots(p)[j]] by {
            assert(before.fib.shown()[before.fib.spots(p)[j]]);
        }
        assert(published.fib.has(tier0::all_prefixes(name)[i]));
    } else {
        law_cached_name_answers_its_prefixes(before.cs, published.cs, name, prefix);
    }
}

/// Probes come from the two hashes of a name by double hashing: they start at the first
/// and step by the second, made odd, as words wrap, and are reduced into the table.
pub proof fn law_probes_step_by_the_second_hash(h1: u64, h2: u64, m: u64, i: u32)
    requires
        m > 0,
    ensures
        ({
            let step = if h2 % 2 == 0 {
                h2 + 1
            } else {
                h2 as int
            };
            probe(h1, h2, m, i as int) == ((h1 + i * step) % 0x1_0000_0000_0000_0000) % m as int
        }),
{
    let s = h2 | 1u64;
    assert(s == (if h2 % 2 == 0 {
        (h2 + 1) as u64
    } else {
        h2
    })) by (bit_vector)
        requires
            s == h2 | 1u64,
    ;
    let word = 0x1_0000_0000_0000_0000int;
    let w = i as int as u64;
    assert(w == i);
    let product = i * s;
    assert(product >= 0) by (nonlinear_arith)
        requires
            product == i * s,
            i >= 0,
            s >= 0,
    ;
    let here = w.wrapping_mul(s);
    assert(here == product % word);
    let sum = h1.wrapping_add(here);
    assert(sum == (h1 + here) % word);
    vstd::arithmetic::div_mod::lemma_add_mod_noop_right(h1 as int, product, word);
    assert((h1 + product % word) % word == (h1 + product) % word);
}

/// A name has one probe per turn, from the hash of the whole name under the table's key
/// and the hash under its second key.
pub proof fn law_the_probes_of_a_name(t: Table, name: Seq<u8>, i: int)
    requires
        0 <= i < t.k,
    ensures
        t.spots(name).len() == t.k,
        t.spots(name)[i] == probe(
            hash::siphash24_of(t.key@, name),
            hash::siphash24_of(t.key@.update(0, t.key@[0] ^ 0x5a), name),
            t.counts.len() as u64,
            i,
        ),
{
}

/// The probes of several names are those of each, one name after the other.
pub proof fn law_the_probes_of_several_names(
    key: Seq<u8>,
    list: Seq<Seq<u8>>,
    name: Seq<u8>,
    m: u64,
    k: int,
)
    ensures
        all_probes(key, Seq::empty(), m, k) == Seq::<int>::empty(),
        all_probes(key, list.push(name), m, k) == all_probes(key, list, m, k) + name_probes(
            key,
            name,
            m,
            k,
        ),
{
    assert(list.push(name).drop_last() =~= list);
}

/// How often a bit is probed is how often it stands among the probes.
pub proof fn law_probes_are_counted(at: Seq<int>, i: int)
    ensures
        occurrences(at, i) == at.filter(|p: int| p == i).len(),
    decreases at.len(),
{
    reveal(Seq::filter);
    if at.len() > 0 {
        law_probes_are_counted(at.drop_last(), i);
    }
}

/// Counting in adds one per probe to its counter, up to 255, and leaves other counters
/// alone; counting out takes one per probe away, down to 0.
pub proof fn law_counters_follow_the_probes(counts: Seq<u8>, at: Seq<int>, i: int)
    requires
        0 <= i < counts.len(),
    ensures
        counted_up(counts, at).len() == counts.len(),
        counted_down(counts, at).len() == counts.len(),
        counts[i] + occurrences(at, i) <= 255 ==> counted_up(counts, at)[i] == counts[i]
            + occurrences(at, i),
        counts[i] + occurrences(at, i) > 255 ==> counted_up(counts, at)[i] == 255,
        counts[i] >= occurrences(at, i) ==> counted_down(counts, at)[i] == counts[i] - occurrences(
            at,
            i,
        ),
        counts[i] < occurrences(at, i) ==> counted_down(counts, at)[i] == 0,
{
}

/// An anomaly is counted for each probe that finds its counter full when counting in, and
/// for each that finds it empty when counting out, and for no other.
pub proof fn law_lost_counts_are_anomalies(counts: Seq<u8>, at: Seq<int>, p: int)
    requires
        0 <= p < counts.len(),
    ensures
        overflows(counts, Seq::empty()) == 0,
        underflows(counts, Seq::empty()) == 0,
        overflows(counts, at.push(p)) == overflows(counts, at) + (if counted_up(counts, at)[p]
            == 255 {
            1int
        } else {
            0int
        }),
        underflows(counts, at.push(p)) == underflows(counts, at) + (if counted_down(
            counts,
            at,
        )[p] == 0 {
            1int
        } else {
            0int
        }),
{
    assert(at.push(p).drop_last() =~= at);
}

/// A published bit is set exactly where its counter is not zero.
pub proof fn law_published_bits_are_the_counters(counts: Seq<u8>, i: int)
    requires
        0 <= i < counts.len(),
    ensures
        truth(counts).len() == counts.len(),
        truth(counts)[i] <==> counts[i] > 0,
{
}

/// A table has a name exactly where every bit that the name probes is set in the octets
/// that queries read.
pub proof fn law_a_table_has_what_all_probes_find(t: Table, name: Seq<u8>)
    requires
        t.wf(),
    ensures
        t.has(name) <==> forall|i: int|
            0 <= i < t.spots(name).len() ==> bits::byte_bit(
                t.mirror@[#[trigger] t.spots(name)[i] / 8],
                t.spots(name)[i] % 8,
            ),
{
    lemma_spots_in_range(t, name);
    let at = t.spots(name);
    assert forall|i: int| 0 <= i < at.len() implies t.shown()[#[trigger] at[i]] == bits::byte_bit(
        t.mirror@[at[i] / 8],
        at[i] % 8,
    ) by {}
}

/// The set bits are counted, each of them and no other.
pub proof fn law_set_bits_are_counted(set: Seq<bool>, n: int)
    requires
        0 <= n <= set.len(),
    ensures
        ones(set, n) == set.take(n).filter(|b: bool| b).len(),
    decreases n,
{
    reveal(Seq::filter);
    let p = |b: bool| b;
    if n > 0 {
        law_set_bits_are_counted(set, n - 1);
        assert(set.take(n).drop_last() =~= set.take(n - 1));
        assert(set.take(n).last() == set[n - 1]);
    } else {
        assert(set.take(0).filter(p) =~= Seq::<bool>::empty());
    }
}

/// A refresh writes exactly the bits that differ from their counters, and to what their
/// counters say.
pub proof fn law_a_refresh_writes_what_differs(set: Seq<bool>, counts: Seq<u8>, i: int, b: bool)
    requires
        set.len() == counts.len() <= usize::MAX,
        0 <= i < counts.len(),
    ensures
        refresh_writes(set, counts).contains((i as usize, b)) <==> set[i] != (counts[i] > 0) && b
            == (counts[i] > 0),
{
    let m = counts.len() as int;
    lemma_writes_below(set, counts, m, i, b);
    let up = to_set(set, counts, m);
    let down = to_clear(set, counts, m);
    let all = refresh_writes(set, counts);
    let w = (i as usize, b);
    if all.contains(w) {
        let j = choose|j: int| 0 <= j < all.len() && all[j] == w;
        if j < up.len() {
            assert(up[j] == w);
        } else {
            assert(down[j - up.len()] == w);
        }
    }
    if up.contains(w) {
        let j = choose|j: int| 0 <= j < up.len() && up[j] == w;
        assert(all[j] == w);
    }
    if down.contains(w) {
        let j = choose|j: int| 0 <= j < down.len() && down[j] == w;
        assert(all[up.len() + j] == w);
    }
}

proof fn lemma_writes_below(set: Seq<bool>, counts: Seq<u8>, n: int, i: int, b: bool)
    requires
        set.len() == counts.len() <= usize::MAX,
        0 <= n <= counts.len(),
        0 <= i < counts.len(),
    ensures
        to_set(set, counts, n).contains((i as usize, b)) <==> i < n && b && counts[i] != 0 && !set[i],
        to_clear(set, counts, n).contains((i as usize, b)) <==> i < n && !b && counts[i] == 0
            && set[i],
    decreases n,
{
    let w = (i as usize, b);
    if n > 0 {
        lemma_writes_below(set, counts, n - 1, i, b);
        let up = to_set(set, counts, n - 1);
        let down = to_clear(set, counts, n - 1);
        let x = ((n - 1) as usize, true);
        let y = ((n - 1) as usize, false);
        lemma_write_pushed(up, x, w);
        lemma_write_pushed(down, y, w);
    }
}

proof fn lemma_write_pushed(list: Seq<(usize, bool)>, x: (usize, bool), w: (usize, bool))
    ensures
        list.push(x).contains(w) <==> list.contains(w) || x == w,
{
    let all = list.push(x);
    if list.contains(w) {
        let j = choose|j: int| 0 <= j < list.len() && list[j] == w;
        assert(all[j] == w);
    }
    if x == w {
        assert(all[list.len() as int] == w);
    }
    if all.contains(w) {
        let j = choose|j: int| 0 <= j < all.len() && all[j] == w;
        if j < list.len() {
            assert(list[j] == w);
        }
    }
}

/// What a lookup concludes: a registered prefix, or an Interest, that the name lies under
/// is in its table, at whatever depth, or the name itself is in the table of the cached.
pub proof fn law_what_a_lookup_concludes(t: Tier1, name: Seq<u8>, prefix: Seq<u8>)
    ensures
        tier0::is_under(name, prefix) && t.fib.has(prefix) ==> t.verdict(name).fib,
        tier0::is_under(name, prefix) && t.pit.has(prefix) ==> t.verdict(name).pit,
        t.verdict(name).cs <==> t.cs.has(name),
        t.verdict(name).fib ==> exists|p: Seq<u8>| #[trigger]
            t.fib.has(p) && tier0::is_under(name, p),
        t.verdict(name).pit ==> exists|p: Seq<u8>| #[trigger]
            t.pit.has(p) && tier0::is_under(name, p),
{
    let list = tier0::all_prefixes(name);
    tier0::lemma_all_prefixes(name, prefix);
    if tier0::is_under(name, prefix) {
        let i = choose|i: int| 0 <= i < list.len() && list[i] == prefix;
        assert(list[i] == prefix);
    }
    if t.verdict(name).fib {
        let i = choose|i: int| 0 <= i < list.len() && t.fib.has(#[trigger] list[i]);
        tier0::lemma_all_prefixes(name, list[i]);
        assert(list.contains(list[i]));
        assert(t.fib.has(list[i]) && tier0::is_under(name, list[i]));
    }
    if t.verdict(name).pit {
        let i = choose|i: int| 0 <= i < list.len() && t.pit.has(#[trigger] list[i]);
        tier0::lemma_all_prefixes(name, list[i]);
        assert(list.contains(list[i]));
        assert(t.pit.has(list[i]) && tier0::is_under(name, list[i]));
    }
}

/// Tables of one shape have as many counters, as many probes per name and the same key,
/// so a name probes the same bits in both.
pub proof fn law_one_shape_one_set_of_probes(a: Table, b: Table, name: Seq<u8>)
    requires
        a.same_shape(b),
    ensures
        a.counts.len() == b.counts.len(),
        a.k == b.k,
        a.key == b.key,
        a.spots(name) == b.spots(name),
{
}

/// A table has at least eight counters, a bit for each, and no bit set behind them.
pub proof fn law_the_form_of_a_table(t: Table, i: int)
    requires
        t.wf(),
    ensures
        t.counts.len() >= 8,
        t.counts.len() <= 8 * t.mirror.len() < t.counts.len() + 8,
        t.shown().len() == t.counts.len(),
        t.counts.len() <= i < 8 * t.mirror.len() ==> !bits::byte_bit(t.mirror@[i / 8], i % 8),
{
    if t.counts.len() <= i < 8 * t.mirror.len() {
        assert(!bits::octet_bit(t.mirror@, i));
    }
}

/// What an operation makes of a table: counting in or out changes the counters that the
/// name probes and the anomalies, a refresh the bits that queries read, and nothing else.
pub proof fn law_what_an_operation_makes_of_a_table(
    before: Table,
    op: TableOp,
    after: Table,
    name: Seq<u8>,
)
    requires
        stepped(before, op, after),
    ensures
        after.k == before.k && after.key == before.key && after.counts.len() == before.counts.len(),
        op == TableOp::Insert(name) ==> after.mirror == before.mirror && after.counts@
            == counted_up(before.counts@, before.spots(name)) && after.saturated == before.saturated
            + overflows(before.counts@, before.spots(name)),
        op == TableOp::Remove(name) ==> after.mirror == before.mirror && after.counts@
            == counted_down(before.counts@, before.spots(name)) && after.saturated
            == before.saturated + underflows(before.counts@, before.spots(name)),
        op is Sync ==> after.counts@ == before.counts@ && after.saturated == before.saturated
            && after.shown() == truth(before.counts@),
{
}

/// The three tables of a node are well formed together.
pub proof fn law_three_tables(t: Tier1)
    ensures
        t.wf() <==> t.fib.wf() && t.pit.wf() && t.cs.wf(),
{
}

} // verus!
