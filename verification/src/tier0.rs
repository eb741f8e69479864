//! Tier 0: the prefix-set Bloom filter that rides in a frame's address fields.
//!
//! A sender inserts every prefix of a name into a 126-bit filter. A receiver
//! keeps one mask per registered prefix and drops, without parsing, every frame
//! whose filter does not cover one of its masks. The negative answer is exact:
//! a frame whose name really is under a registered prefix always passes.

use vstd::prelude::*;

use crate::bits;
use crate::hash;

verus! {

/// Usable filter bits: sixteen octets less the two reserved bits of octet 0.
pub const M_BITS: u32 = 126;

/// Bit positions that one prefix occupies.
pub const K: u32 = 4;

/// Deepest prefix inserted; deeper names are matched by the software tiers.
pub const MAX_DEPTH: usize = 8;

/// Most bits that a received filter may carry and still match any mask.
pub const FILL_CAP: u32 = 64;

/// The two bits of octet 0 that the filter leaves alone (I/G and U/L).
pub const RESERVED_MASK0: u8 = 0b0000_0011;

/// Separates the key of the second hash from that of the first: the bytes of
/// `ndn/tier0-h2`, padded with zeros.
pub const KEY2_DOMAIN: [u8; 16] = [
    0x6e, 0x64, 0x6e, 0x2f, 0x74, 0x69, 0x65, 0x72,
    0x30, 0x2d, 0x68, 0x32, 0, 0, 0, 0,
];

/// The byte that separates name components.
pub const SLASH: u8 = 0x2f;

// ---------------------------------------------------------------------------
// Prefixes of a name
// ---------------------------------------------------------------------------

/// The indices `1 <= i < end` at which `name` holds a slash, in order. The slash
/// at index 0 opens the first component and separates nothing.
pub open spec fn cuts_before(name: Seq<u8>, end: int) -> Seq<int>
    decreases end,
{
    if end <= 1 {
        Seq::empty()
    } else if name[end - 1] == SLASH {
        cuts_before(name, end - 1).push(end - 1)
    } else {
        cuts_before(name, end - 1)
    }
}

/// The indices at which `name` is cut into components.
pub open spec fn cuts(name: Seq<u8>) -> Seq<int> {
    cuts_before(name, name.len() as int)
}

/// The name `/` of the root.
pub open spec fn root() -> Seq<u8> {
    seq![SLASH]
}

/// The prefixes that stand for `name` in a filter: the root, the prefixes that
/// end before one of the first `MAX_DEPTH - 1` cuts, and the name itself where
/// it has fewer than `MAX_DEPTH` cuts.
pub open spec fn prefixes(name: Seq<u8>) -> Seq<Seq<u8>> {
    let c = cuts(name);
    let shown: int = if c.len() < MAX_DEPTH - 1 { c.len() as int } else { MAX_DEPTH - 1 };
    let inner = seq![root()] + Seq::new(shown as nat, |i: int| name.take(c[i]));
    if name.len() > 0 && c.len() < MAX_DEPTH {
        inner.push(name)
    } else {
        inner
    }
}

/// Every prefix of `name`, however deep: the root, the prefixes that end before a
/// cut, and the name itself.
pub open spec fn all_prefixes(name: Seq<u8>) -> Seq<Seq<u8>> {
    let c = cuts(name);
    let inner = seq![root()] + Seq::new(c.len(), |i: int| name.take(c[i]));
    if name.len() > 0 {
        inner.push(name)
    } else {
        inner
    }
}

/// How much of a registered prefix a sender could have inserted: all of it, or
/// its first `MAX_DEPTH - 1` components.
pub open spec fn clamp_len(prefix: Seq<u8>) -> int {
    let c = cuts(prefix);
    if c.len() >= MAX_DEPTH - 1 {
        c[MAX_DEPTH - 2]
    } else {
        prefix.len() as int
    }
}

/// The registered prefix as it is matched.
pub open spec fn clamped(prefix: Seq<u8>) -> Seq<u8> {
    prefix.take(clamp_len(prefix))
}

/// `name` lies under `prefix`: the prefix is the root, the whole name, or an
/// initial part of it that ends where a component ends.
pub open spec fn is_under(name: Seq<u8>, prefix: Seq<u8>) -> bool {
    ||| prefix == root()
    ||| prefix == name && name.len() > 0
    ||| exists|j: int| 0 < j < name.len() && #[trigger] name[j] == SLASH && prefix == name.take(j)
}

proof fn lemma_cuts_bounds(name: Seq<u8>, end: int)
    requires
        end <= name.len(),
    ensures
        forall|i: int|
            0 <= i < cuts_before(name, end).len() ==> 1 <= #[trigger] cuts_before(name, end)[i]
                < end && name[cuts_before(name, end)[i]] == SLASH,
    decreases end,
{
    if end > 1 {
        lemma_cuts_bounds(name, end - 1);
        let prev = cuts_before(name, end - 1);
        assert forall|i: int| 0 <= i < cuts_before(name, end).len() implies 1
            <= #[trigger] cuts_before(name, end)[i] < end
            && name[cuts_before(name, end)[i]] == SLASH by {
            if i < prev.len() {
                assert(cuts_before(name, end)[i] == prev[i]);
            }
        }
    }
}

/// Cuts before `end` do not depend on what follows `end`.
proof fn lemma_cuts_local(a: Seq<u8>, b: Seq<u8>, end: int)
    requires
        end <= a.len(),
        end <= b.len(),
        forall|i: int| 0 <= i < end ==> a[i] == b[i],
    ensures
        cuts_before(a, end) == cuts_before(b, end),
    decreases end,
{
    if end > 1 {
        lemma_cuts_local(a, b, end - 1);
    }
}

/// The cuts before an earlier end are an initial part of those before a later one.
proof fn lemma_cuts_extend(name: Seq<u8>, lo: int, hi: int)
    requires
        lo <= hi <= name.len(),
    ensures
        cuts_before(name, lo).len() <= cuts_before(name, hi).len(),
        forall|i: int|
            0 <= i < cuts_before(name, lo).len() ==> cuts_before(name, lo)[i]
                == #[trigger] cuts_before(name, hi)[i],
    decreases hi,
{
    if lo < hi && hi > 1 {
        lemma_cuts_extend(name, lo, hi - 1);
    }
}

/// Every prefix that a name lies under is, once clamped, one that a sender of
/// the name inserts.
pub proof fn lemma_clamped_prefix_is_inserted(name: Seq<u8>, prefix: Seq<u8>)
    requires
        is_under(name, prefix),
    ensures
        prefixes(name).contains(clamped(prefix)),
{
    let c = cuts(name);
    lemma_cuts_bounds(name, name.len() as int);
    let shown: int = if c.len() < MAX_DEPTH - 1 { c.len() as int } else { MAX_DEPTH - 1 };
    if prefix == root() {
        assert(cuts(prefix) =~= Seq::<int>::empty());
        assert(clamped(prefix) =~= root());
        assert(prefixes(name)[0] == root());
    } else if prefix == name && name.len() > 0 {
        if c.len() >= MAX_DEPTH - 1 {
            assert(prefixes(name)[MAX_DEPTH - 1] == name.take(c[MAX_DEPTH - 2]));
        } else {
            assert(clamped(prefix) =~= name);
            assert(prefixes(name).last() == name);
        }
    } else {
        let j = choose|j: int|
            0 < j < name.len() && #[trigger] name[j] == SLASH && prefix == name.take(j);
        lemma_cuts_local(prefix, name, j);
        lemma_cuts_extend(name, j + 1, name.len() as int);
        let before = cuts_before(name, j);
        assert(cuts(prefix) == before);
        assert(cuts_before(name, j + 1) == before.push(j));
        assert(c[before.len() as int] == j) by {
            assert(cuts_before(name, j + 1)[before.len() as int] == j);
        }
        if before.len() >= MAX_DEPTH - 1 {
            lemma_cuts_extend(name, j, name.len() as int);
            assert(before[MAX_DEPTH - 2] == c[MAX_DEPTH - 2]);
            lemma_cuts_bounds(name, j);
            assert(clamped(prefix) =~= name.take(c[MAX_DEPTH - 2]));
            assert(prefixes(name)[MAX_DEPTH - 1] == name.take(c[MAX_DEPTH - 2]));
        } else {
            assert(clamped(prefix) =~= name.take(j));
            assert(prefixes(name)[before.len() as int + 1] == name.take(j));
        }
    }
}

/// A name has between one and `MAX_DEPTH + 1` inserted prefixes, root first.
pub proof fn lemma_prefix_count(name: Seq<u8>)
    ensures
        1 <= prefixes(name).len() <= MAX_DEPTH + 1,
        prefixes(name)[0] == root(),
{
}

/// The prefixes of a `/`-separated name, root first, capped at `MAX_DEPTH`:
/// `/A/b/c` gives `/`, `/A`, `/A/b` and `/A/b/c`.
pub fn for_each_prefix(name: &[u8]) -> (out: Vec<Vec<u8>>)
    ensures
        out@.map_values(|p: Vec<u8>| p@) == prefixes(name@),
{
    let mut out: Vec<Vec<u8>> = Vec::new();
    let mut first: Vec<u8> = Vec::new();
    first.push(SLASH);
    out.push(first);
    let mut depth: usize = 0;
    let mut i: usize = 1;
    let ghost view = |p: Vec<u8>| p@;
    assert(first@ == root());
    assert(out@.map_values(view) =~= seq![root()]);
    proof {
        lemma_cuts_bounds(name@, name@.len() as int);
    }
    while i < name.len()
        invariant
            1 <= i,
            i <= name.len() || name.len() == 0 && i == 1,
            depth < MAX_DEPTH,
            view == (|p: Vec<u8>| p@),
            cuts_before(name@, i as int).len() == depth,
            out@.map_values(view) == seq![root()] + Seq::new(
                depth as nat,
                |k: int| name@.take(cuts_before(name@, i as int)[k]),
            ),
        decreases name.len() - i,
    {
        let ghost before = cuts_before(name@, i as int);
        let ghost done = out@.map_values(view);
        if name[i] == SLASH {
            depth = depth + 1;
            proof {
                lemma_cuts_extend(name@, i + 1, name@.len() as int);
                assert(cuts_before(name@, i + 1) == before.push(i as int));
            }
            if depth >= MAX_DEPTH {
                proof {
                    assert(out@.map_values(view) =~= prefixes(name@));
                }
                return out;
            }
            let p: Vec<u8> = slice_to_vec(name, i);
            out.push(p);
            assert(out@.map_values(view) =~= done.push(name@.take(i as int)));
        }
        assert(out@.map_values(view) =~= seq![root()] + Seq::new(
            depth as nat,
            |k: int| name@.take(cuts_before(name@, i + 1)[k]),
        ));
        i = i + 1;
    }
    proof {
        assert(cuts(name@) == cuts_before(name@, i as int));
    }
    if name.len() > 0 {
        let ghost done = out@.map_values(view);
        let whole: Vec<u8> = slice_to_vec(name, name.len());
        out.push(whole);
        assert(whole@ =~= name@);
        assert(out@.map_values(view) =~= done.push(name@));
    }
    assert(out@.map_values(view) =~= prefixes(name@));
    out
}

/// The prefixes of a name are those that it lies under.
pub proof fn lemma_all_prefixes(name: Seq<u8>, prefix: Seq<u8>)
    ensures
        all_prefixes(name).contains(prefix) == is_under(name, prefix),
{
    let c = cuts(name);
    let list = all_prefixes(name);
    lemma_cuts_bounds(name, name.len() as int);
    if list.contains(prefix) {
        let i = choose|i: int| 0 <= i < list.len() && list[i] == prefix;
        if 1 <= i <= c.len() {
            assert(prefix == name.take(c[i - 1]));
            assert(name[c[i - 1]] == SLASH);
        }
    }
    if is_under(name, prefix) {
        if prefix == root() {
            assert(list[0] == root());
        } else if prefix == name && name.len() > 0 {
            assert(list.last() == name);
        } else {
            let j = choose|j: int|
                0 < j < name.len() && #[trigger] name[j] == SLASH && prefix == name.take(j);
            lemma_cuts_extend(name, j + 1, name.len() as int);
            let before = cuts_before(name, j);
            assert(cuts_before(name, j + 1) == before.push(j));
            assert(c[before.len() as int] == j) by {
                assert(cuts_before(name, j + 1)[before.len() as int] == j);
            }
            assert(list[before.len() as int + 1] == name.take(j));
        }
    }
}

/// Where a name is not deeper than the in-frame filter goes, a sender inserts all
/// of its prefixes.
pub proof fn law_shallow_names_are_inserted_whole(name: Seq<u8>)
    requires
        cuts(name).len() < MAX_DEPTH,
    ensures
        prefixes(name) == all_prefixes(name),
{
    assert(prefixes(name) =~= all_prefixes(name));
}

/// Every prefix of a `/`-separated name, root first and without a cap on the depth:
/// what the software tiers match on.
pub fn every_prefix(name: &[u8]) -> (out: Vec<Vec<u8>>)
    ensures
        out@.map_values(|p: Vec<u8>| p@) == all_prefixes(name@),
{
    let mut out: Vec<Vec<u8>> = Vec::new();
    let mut first: Vec<u8> = Vec::new();
    first.push(SLASH);
    out.push(first);
    let ghost view = |p: Vec<u8>| p@;
    assert(first@ == root());
    assert(out@.map_values(view) =~= seq![root()]);
    let mut i: usize = 1;
    while i < name.len()
        invariant
            1 <= i,
            i <= name.len() || name.len() == 0 && i == 1,
            view == (|p: Vec<u8>| p@),
            out@.map_values(view) == seq![root()] + Seq::new(
                cuts_before(name@, i as int).len(),
                |k: int| name@.take(cuts_before(name@, i as int)[k]),
            ),
        decreases name.len() - i,
    {
        let ghost before = cuts_before(name@, i as int);
        let ghost done = out@.map_values(view);
        if name[i] == SLASH {
            assert(cuts_before(name@, i + 1) == before.push(i as int));
            let p: Vec<u8> = slice_to_vec(name, i);
            out.push(p);
            assert(out@.map_values(view) =~= done.push(name@.take(i as int)));
        }
        assert(out@.map_values(view) =~= seq![root()] + Seq::new(
            cuts_before(name@, i + 1).len(),
            |k: int| name@.take(cuts_before(name@, i + 1)[k]),
        ));
        i = i + 1;
    }
    assert(cuts(name@) == cuts_before(name@, i as int));
    if name.len() > 0 {
        let ghost done = out@.map_values(view);
        let whole: Vec<u8> = slice_to_vec(name, name.len());
        out.push(whole);
        assert(whole@ =~= name@);
        assert(out@.map_values(view) =~= done.push(name@));
    }
    assert(out@.map_values(view) =~= all_prefixes(name@));
    out
}

/// The first `end` bytes of `s`, copied.
pub(crate) fn slice_to_vec(s: &[u8], end: usize) -> (v: Vec<u8>)
    requires
        end <= s.len(),
    ensures
        v@ == s@.take(end as int),
{
    let mut v: Vec<u8> = Vec::new();
    let mut i: usize = 0;
    while i < end
        invariant
            i <= end <= s.len(),
            v@ == s@.take(i as int),
        decreases end - i,
    {
        v.push(s[i]);
        i = i + 1;
        assert(s@.take(i as int) =~= s@.take(i - 1).push(s@[i - 1]));
    }
    v
}

/// How many bytes of a registered prefix are matched: the deepest form that a
/// sender would have inserted.
pub fn clamp_prefix(prefix: &[u8]) -> (n: usize)
    ensures
        n == clamp_len(prefix@),
        n <= prefix.len(),
{
    let mut comps: usize = 0;
    let mut i: usize = 1;
    while i < prefix.len()
        invariant
            1 <= i,
            i <= prefix.len() || prefix.len() == 0 && i == 1,
            comps < MAX_DEPTH - 1,
            cuts_before(prefix@, i as int).len() == comps,
        decreases prefix.len() - i,
    {
        if prefix[i] == SLASH {
            comps = comps + 1;
            if comps >= MAX_DEPTH - 1 {
                proof {
                    lemma_cuts_extend(prefix@, i + 1, prefix@.len() as int);
                    assert(cuts_before(prefix@, i + 1)[comps - 1] == i);
                }
                return i;
            }
        }
        i = i + 1;
    }
    prefix.len()
}

// ---------------------------------------------------------------------------
// Bit positions of a prefix
// ---------------------------------------------------------------------------

/// The key of the second hash.
pub open spec fn key2_of(key: Seq<u8>) -> Seq<u8> {
    Seq::new(16, |i: int| key[i] ^ KEY2_DOMAIN[i])
}

/// Position `i` of a prefix whose two hashes are `h1` and `h2`: double hashing on
/// their low halves, with an odd stride.
pub open spec fn position(h1: u64, h2: u64, i: int) -> int {
    ((h1 as u32).wrapping_add((i as u32).wrapping_mul((h2 as u32) | 1u32)) % M_BITS) as int
}

/// The filter bits of a prefix with these two hashes.
pub open spec fn spread(h1: u64, h2: u64) -> Set<int> {
    Set::empty().insert(position(h1, h2, 0)).insert(position(h1, h2, 1)).insert(
        position(h1, h2, 2),
    ).insert(position(h1, h2, 3))
}

/// The filter bits of `prefix` under `key`.
pub open spec fn prefix_bits(key: Seq<u8>, prefix: Seq<u8>) -> Set<int> {
    spread(hash::siphash24_of(key, prefix), hash::siphash24_of(key2_of(key), prefix))
}

/// The filter bits of several prefixes together.
pub open spec fn all_bits(key: Seq<u8>, list: Seq<Seq<u8>>) -> Set<int>
    decreases list.len(),
{
    if list.len() == 0 {
        Set::empty()
    } else {
        all_bits(key, list.drop_last()).union(prefix_bits(key, list.last()))
    }
}

/// The filter bits of a name: those of all the prefixes it is inserted by.
pub open spec fn name_bits(key: Seq<u8>, name: Seq<u8>) -> Set<int> {
    all_bits(key, prefixes(name))
}

/// The mask bits of a registered prefix.
pub open spec fn mask_bits(key: Seq<u8>, prefix: Seq<u8>) -> Set<int> {
    prefix_bits(key, clamped(prefix))
}

/// A filter with the bits `frame` is accepted for a mask with the bits `mask`:
/// it is not over-full, and it has every bit of the mask.
pub open spec fn accepts(frame: Set<int>, mask: Set<int>) -> bool {
    frame.len() <= FILL_CAP && mask.subset_of(frame)
}

/// SipHash-2-4 of `name` under the whole group key.
pub fn name_hash(key: &[u8; 16], name: &[u8]) -> (h: u64)
    ensures
        h == hash::siphash24_of(key@, name@),
{
    hash::siphash24(key, name)
}

/// The bit positions of a prefix with the hashes `h1` and `h2`.
pub fn positions_from(h1: u64, h2: u64) -> (out: [u8; 4])
    ensures
        forall|i: int| 0 <= i < K ==> #[trigger] out[i] == position(h1, h2, i),
        forall|i: int| 0 <= i < K ==> #[trigger] out[i] < M_BITS,
{
    let mut out: [u8; 4] = [0u8; 4];
    let base: u32 = #[verifier::truncate] (h1 as u32);
    let step: u32 = #[verifier::truncate] (h2 as u32) | 1;
    let mut i: usize = 0;
    while i < 4
        invariant
            i <= 4,
            base == h1 as u32,
            step == (h2 as u32) | 1u32,
            forall|j: int| 0 <= j < i ==> #[trigger] out[j] == position(h1, h2, j),
        decreases 4 - i,
    {
        out[i] = (base.wrapping_add((i as u32).wrapping_mul(step)) % M_BITS) as u8;
        i = i + 1;
    }
    out
}

/// The `K` bit positions that `prefix` occupies under `key`: two independent
/// hashes, expanded by double hashing.
pub fn positions(key: &[u8; 16], prefix: &[u8]) -> (out: [u8; 4])
    ensures
        forall|i: int|
            0 <= i < K ==> #[trigger] out[i] == position(
                hash::siphash24_of(key@, prefix@),
                hash::siphash24_of(key2_of(key@), prefix@),
                i,
            ),
        forall|i: int| 0 <= i < K ==> #[trigger] out[i] < M_BITS,
{
    let mut key2: [u8; 16] = *key;
    let mut i: usize = 0;
    while i < 16
        invariant
            i <= 16,
            forall|j: int| 0 <= j < i ==> key2[j] == key[j] ^ KEY2_DOMAIN[j],
            forall|j: int| i <= j < 16 ==> key2[j] == key[j],
        decreases 16 - i,
    {
        key2[i] = key2[i] ^ KEY2_DOMAIN[i];
        i = i + 1;
    }
    assert(key2@ =~= key2_of(key@));
    positions_from(name_hash(key, prefix), name_hash(&key2, prefix))
}

/// The odd stride keeps the positions of a prefix from collapsing onto one bit:
/// neighbouring positions differ in parity.
pub proof fn law_positions_do_not_collapse(h1: u64, h2: u64)
    ensures
        forall|i: int|
            0 <= i < K - 1 ==> #[trigger] position(h1, h2, i) % 2 != position(h1, h2, i + 1) % 2,
        position(h1, h2, 0) != position(h1, h2, 1),
        position(h1, h2, 1) != position(h1, h2, 2),
        position(h1, h2, 2) != position(h1, h2, 3),
        spread(h1, h2).len() >= 2,
{
    lemma_neighbours_differ(h1, h2, 0);
    lemma_neighbours_differ(h1, h2, 1);
    lemma_neighbours_differ(h1, h2, 2);
    let small = Set::<int>::empty().insert(position(h1, h2, 0)).insert(position(h1, h2, 1));
    assert(small.len() == 2);
    assert(small.subset_of(spread(h1, h2)));
    vstd::set_lib::lemma_len_subset(small, spread(h1, h2));
}

/// Wrapping and the even number of bits leave the parity alone.
proof fn lemma_parity_stays(x: int)
    ensures
        (x % 0x1_0000_0000) % 2 == x % 2,
        (x % 126) % 2 == x % 2,
{
    vstd::arithmetic::div_mod::lemma_mod_mod(x, 2, 0x8000_0000);
    assert(2 * 0x8000_0000int == 0x1_0000_0000) by (nonlinear_arith);
    vstd::arithmetic::div_mod::lemma_mod_mod(x, 2, 63);
    assert(2 * 63int == 126) by (nonlinear_arith);
}

proof fn lemma_odd_step(x: int, s: int)
    requires
        s % 2 == 1,
    ensures
        x % 2 != (x + s) % 2,
{
}

/// The parity of a position is that of the sum that it comes from.
proof fn lemma_position_parity(h1: u64, h2: u64, i: int)
    requires
        0 <= i < K,
    ensures
        position(h1, h2, i) % 2 == ((h1 as u32) + i * ((h2 as u32) | 1u32)) % 2,
{
    let a = h1 as u32;
    let s = (h2 as u32) | 1u32;
    let product = i * s;
    let here = (i as u32).wrapping_mul(s);
    let sum = a.wrapping_add(here);
    assert(product >= 0) by (nonlinear_arith)
        requires
            product == i * s,
            0 <= i,
            s >= 0,
    ;
    assert(here == product % 0x1_0000_0000);
    assert(sum == (a + here) % 0x1_0000_0000);
    lemma_parity_stays(product);
    lemma_parity_stays(a + here);
    lemma_parity_stays(sum as int);
    assert((a + here) % 2 == (a + product) % 2);
}

/// An odd step changes the parity.
proof fn lemma_neighbours_differ(h1: u64, h2: u64, i: int)
    requires
        0 <= i < K - 1,
    ensures
        position(h1, h2, i) % 2 != position(h1, h2, i + 1) % 2,
{
    let h = h2 as u32;
    let s = h | 1u32;
    assert((h | 1u32) % 2 == 1) by (bit_vector);
    assert((i + 1) * s == i * s + s) by (nonlinear_arith);
    lemma_position_parity(h1, h2, i);
    lemma_position_parity(h1, h2, i + 1);
    lemma_odd_step((h1 as u32) + i * s, s as int);
}

proof fn lemma_all_bits_size(key: Seq<u8>, list: Seq<Seq<u8>>)
    ensures
        all_bits(key, list).finite(),
        all_bits(key, list).len() <= K * list.len(),
    decreases list.len(),
{
    if list.len() > 0 {
        lemma_all_bits_size(key, list.drop_last());
        vstd::set_lib::lemma_len_union(
            all_bits(key, list.drop_last()),
            prefix_bits(key, list.last()),
        );
    }
}

proof fn lemma_all_bits_contains(key: Seq<u8>, list: Seq<Seq<u8>>, p: Seq<u8>)
    requires
        list.contains(p),
    ensures
        prefix_bits(key, p).subset_of(all_bits(key, list)),
    decreases list.len(),
{
    let i = choose|i: int| 0 <= i < list.len() && list[i] == p;
    if i < list.len() - 1 {
        assert(list.drop_last()[i] == p);
        lemma_all_bits_contains(key, list.drop_last(), p);
    }
}

/// One name sets at most `K * (MAX_DEPTH + 1)` bits, so a frame that carries one
/// name is never rejected as over-full.
pub proof fn law_one_name_stays_under_the_cap(key: Seq<u8>, name: Seq<u8>)
    ensures
        name_bits(key, name).finite(),
        name_bits(key, name).len() <= K * (MAX_DEPTH + 1) <= FILL_CAP,
{
    lemma_all_bits_size(key, prefixes(name));
    lemma_prefix_count(name);
}

/// A filter that holds a name is never empty: the root is always in it.
pub proof fn lemma_named_filter_is_not_empty(key: Seq<u8>, name: Seq<u8>)
    ensures
        name_bits(key, name).len() >= 2,
{
    lemma_prefix_count(name);
    lemma_all_bits_size(key, prefixes(name));
    lemma_all_bits_contains(key, prefixes(name), root());
    law_positions_do_not_collapse(
        hash::siphash24_of(key, root()),
        hash::siphash24_of(key2_of(key), root()),
    );
    vstd::set_lib::lemma_len_subset(prefix_bits(key, root()), name_bits(key, name));
}

/// No false negative: a frame whose filter holds a name is accepted by the mask
/// of every prefix that the name lies under, whatever the depth of either.
pub proof fn law_no_false_negative(key: Seq<u8>, name: Seq<u8>, prefix: Seq<u8>)
    requires
        is_under(name, prefix),
    ensures
        accepts(name_bits(key, name), mask_bits(key, prefix)),
{
    law_one_name_stays_under_the_cap(key, name);
    lemma_clamped_prefix_is_inserted(name, prefix);
    lemma_all_bits_contains(key, prefixes(name), clamped(prefix));
}

// ---------------------------------------------------------------------------
// The filter
// ---------------------------------------------------------------------------

/// The usable bits of sixteen filter octets: bit `p` is bit `p + 2` of the
/// octets, so that the two reserved bits of octet 0 stay free.
pub open spec fn filter_bits(octets: Seq<u8>) -> Set<int> {
    Set::new(|p: int| 0 <= p < M_BITS && bits::byte_bit(octets[(p + 2) / 8], (p + 2) % 8))
}

/// The octets as they go on air: the reserved bits read group and local.
pub open spec fn wire_octets(octets: Seq<u8>) -> Seq<u8> {
    octets.update(0, (octets[0] & !RESERVED_MASK0) | 0b0000_0011)
}

/// A 126-bit in-frame filter: its usable bits and the two reserved address bits.
#[derive(Clone, Copy, PartialEq, Eq, Debug)]
pub struct PrefixFilter(pub [u8; 16]);

impl View for PrefixFilter {
    type V = Set<int>;

    open spec fn view(&self) -> Set<int> {
        filter_bits(self.0@)
    }
}

impl Default for PrefixFilter {
    fn default() -> (f: Self)
        ensures
            f.0@ == Seq::new(16, |i: int| 0u8),
            f@ == Set::<int>::empty(),
    {
        Self::new()
    }
}

/// Forcing the reserved bits leaves every usable bit alone.
proof fn lemma_wire_bits(octets: Seq<u8>)
    requires
        octets.len() == 16,
    ensures
        filter_bits(wire_octets(octets)) == filter_bits(octets),
        wire_octets(octets)[0] & RESERVED_MASK0 == 0b0000_0011,
{
    let b = octets[0];
    assert(((b & !3u8) | 3u8) & 3u8 == 3u8) by (bit_vector);
    assert forall|p: int| #[trigger]
        filter_bits(wire_octets(octets)).contains(p) == filter_bits(octets).contains(p) by {
        if 0 <= p < M_BITS && (p + 2) / 8 == 0 {
            let j = ((p + 2) % 8) as u8;
            assert(2 <= j < 8);
            assert((((b & !3u8) | 3u8) & (1u8 << j) != 0) == (b & (1u8 << j) != 0)) by (bit_vector)
                requires
                    2 <= j < 8,
            ;
        }
    }
    assert(filter_bits(wire_octets(octets)) =~= filter_bits(octets));
}

/// The octet-wise test of a mask against a frame, reserved bits left out.
spec fn octets_cover(frame: Seq<u8>, mask: Seq<u8>, n: int) -> bool {
    forall|k: int, j: int|
        0 <= k < n && 0 <= j < 8 && (k > 0 || j >= 2) && #[trigger] bits::byte_bit(mask[k], j)
            ==> bits::byte_bit(frame[k], j)
}

proof fn lemma_octets_cover(frame: Seq<u8>, mask: Seq<u8>)
    ensures
        octets_cover(frame, mask, 16) == filter_bits(mask).subset_of(filter_bits(frame)),
{
    if octets_cover(frame, mask, 16) {
        assert forall|p: int| filter_bits(mask).contains(p) implies filter_bits(frame).contains(
            p,
        ) by {
            assert(bits::byte_bit(mask[(p + 2) / 8], (p + 2) % 8));
        }
    }
    if filter_bits(mask).subset_of(filter_bits(frame)) {
        assert forall|k: int, j: int|
            0 <= k < 16 && 0 <= j < 8 && (k > 0 || j >= 2) && #[trigger] bits::byte_bit(
                mask[k],
                j,
            ) implies bits::byte_bit(frame[k], j) by {
            let p = 8 * k + j - 2;
            assert((p + 2) / 8 == k && (p + 2) % 8 == j);
            assert(filter_bits(mask).contains(p));
            assert(filter_bits(frame).contains(p));
        }
    }
}

impl PrefixFilter {
    /// An empty filter.
    pub fn new() -> (f: Self)
        ensures
            f.0@ == Seq::new(16, |i: int| 0u8),
            f@ == Set::<int>::empty(),
    {
        let f = Self([0u8; 16]);
        proof {
            assert(f.0@ =~= Seq::new(16, |i: int| 0u8));
            assert forall|p: int| !filter_bits(f.0@).contains(p) by {
                if 0 <= p < M_BITS {
                    bits::lemma_bit_of_zero((p + 2) % 8);
                }
            }
            assert(f@ =~= Set::<int>::empty());
        }
        f
    }

    /// Sets one usable bit. The reserved bits cannot be reached.
    pub fn set_bit(&mut self, pos: u8)
        requires
            pos < M_BITS,
        ensures
            final(self)@ == old(self)@.insert(pos as int),
            final(self).0[0] & RESERVED_MASK0 == old(self).0[0] & RESERVED_MASK0,
    {
        let p: usize = pos as usize + 2;
        let k: usize = p / 8;
        let j: u8 = (p % 8) as u8;
        let ghost before = self.0@;
        let b: u8 = self.0[k];
        self.0[k] = b | bits::bit_mask(j);
        proof {
            let after = self.0@;
            assert forall|q: int| #[trigger] filter_bits(after).contains(q) == (filter_bits(
                before,
            ).contains(q) || q == pos as int) by {
                if 0 <= q < M_BITS && (q + 2) / 8 == k {
                    bits::lemma_bit_set(b, j as int, (q + 2) % 8);
                }
            }
            assert(filter_bits(after) =~= filter_bits(before).insert(pos as int));
            if k == 0 {
                assert((b | (1u8 << j)) & 3u8 == b & 3u8) by (bit_vector)
                    requires
                        2 <= j < 8,
                ;
            }
        }
    }

    /// Reads one usable bit.
    pub fn get_bit(&self, pos: u8) -> (r: bool)
        requires
            pos < M_BITS,
        ensures
            r == self@.contains(pos as int),
    {
        let p: usize = pos as usize + 2;
        self.0[p / 8] & bits::bit_mask((p % 8) as u8) != 0
    }

    /// Inserts every prefix of `name`.
    pub fn insert_name(&mut self, key: &[u8; 16], name: &[u8])
        ensures
            final(self)@ == old(self)@.union(name_bits(key@, name@)),
            final(self).0[0] & RESERVED_MASK0 == old(self).0[0] & RESERVED_MASK0,
    {
        let list: Vec<Vec<u8>> = for_each_prefix(name);
        let ghost views = list@.map_values(|p: Vec<u8>| p@);
        let mut i: usize = 0;
        assert(all_bits(key@, views.take(0)) =~= Set::<int>::empty());
        assert(self@ =~= old(self)@.union(all_bits(key@, views.take(0))));
        while i < list.len()
            invariant
                i <= list.len(),
                views == list@.map_values(|p: Vec<u8>| p@),
                self@ == old(self)@.union(all_bits(key@, views.take(i as int))),
                self.0[0] & RESERVED_MASK0 == old(self).0[0] & RESERVED_MASK0,
            decreases list.len() - i,
        {
            let ghost before = self@;
            self.insert_prefix(key, list[i].as_slice());
            i = i + 1;
            proof {
                assert(views.take(i as int).drop_last() =~= views.take(i - 1));
                assert(views.take(i as int).last() == list[i - 1]@);
                assert(self@ =~= old(self)@.union(all_bits(key@, views.take(i as int))));
            }
        }
        assert(views.take(i as int) =~= views);
    }

    /// Sets the bits of one prefix as it stands.
    fn insert_prefix(&mut self, key: &[u8; 16], prefix: &[u8])
        ensures
            final(self)@ == old(self)@.union(prefix_bits(key@, prefix@)),
            final(self).0[0] & RESERVED_MASK0 == old(self).0[0] & RESERVED_MASK0,
    {
        let at: [u8; 4] = positions(key, prefix);
        self.set_bit(at[0]);
        self.set_bit(at[1]);
        self.set_bit(at[2]);
        self.set_bit(at[3]);
        assert(self@ =~= old(self)@.union(prefix_bits(key@, prefix@)));
    }

    /// The mask that a receiver computes once per registered prefix. The prefix
    /// is clamped first, to the deepest form that a sender inserts.
    pub fn mask_for(key: &[u8; 16], prefix: &[u8]) -> (m: Self)
        ensures
            m@ == mask_bits(key@, prefix@),
            m.0[0] & RESERVED_MASK0 == 0,
    {
        let kept: Vec<u8> = slice_to_vec(prefix, clamp_prefix(prefix));
        let mut m = Self::new();
        proof {
            assert(0u8 & 3u8 == 0) by (bit_vector);
        }
        m.insert_prefix(key, kept.as_slice());
        assert(m@ =~= mask_bits(key@, prefix@));
        m
    }

    /// Could this frame's name be under the prefix that `mask` was built from?
    /// `false` is exact; `true` leaves the decision to the software tier. An
    /// over-full filter matches nothing.
    pub fn may_match(&self, mask: &Self) -> (r: bool)
        ensures
            r == accepts(self@, mask@),
    {
        if self.popcount() > FILL_CAP {
            return false;
        }
        proof {
            lemma_octets_cover(self.0@, mask.0@);
        }
        let mut i: usize = 0;
        while i < 16
            invariant
                i <= 16,
                octets_cover(self.0@, mask.0@, i as int),
                octets_cover(self.0@, mask.0@, 16) == mask@.subset_of(self@),
            decreases 16 - i,
        {
            let m: u8 = mask.0[i];
            let want: u8 = if i == 0 { m & !RESERVED_MASK0 } else { m };
            proof {
                bits::lemma_covers(self.0[i as int], want);
                if i == 0 {
                    assert forall|j: int| 0 <= j < 8 implies bits::byte_bit(want, j) == (bits::byte_bit(m, j)
                        && j >= 2) by {
                        let l = j as u8;
                        assert(((m & !3u8) & (1u8 << l) != 0) == ((m & (1u8 << l) != 0) && l >= 2))
                            by (bit_vector)
                            requires
                                l < 8,
                        ;
                    }
                }
            }
            if self.0[i] & want != want {
                proof {
                    let j = choose|j: int|
                        0 <= j < 8 && bits::byte_bit(want, j) && !bits::byte_bit(self.0[i as int], j);
                    assert(bits::byte_bit(mask.0@[i as int], j));
                    assert(!octets_cover(self.0@, mask.0@, 16));
                }
                return false;
            }
            i = i + 1;
        }
        true
    }

    /// How many usable bits are set.
    pub fn popcount(&self) -> (n: u32)
        ensures
            n == self@.len(),
            n <= M_BITS,
            self@.finite(),
    {
        let mut n: u32 = 0;
        let mut p: u8 = 0;
        let ghost mut seen = Set::<int>::empty();
        while p < 126
            invariant
                p <= 126,
                n <= p,
                seen == self@.filter(|q: int| q < p),
                seen.finite(),
                seen.len() == n,
            decreases 126 - p,
        {
            if self.get_bit(p) {
                n = n + 1;
                proof {
                    assert(self@.filter(|q: int| q < p + 1) =~= seen.insert(p as int));
                    seen = seen.insert(p as int);
                }
            } else {
                assert(self@.filter(|q: int| q < p + 1) =~= seen);
            }
            p = p + 1;
        }
        assert(seen =~= self@);
        n
    }

    /// The sixteen octets on air, with the reserved bits forced to a locally
    /// administered group address.
    pub fn to_wire(&self) -> (w: [u8; 16])
        ensures
            w@ == wire_octets(self.0@),
            w[0] & RESERVED_MASK0 == 0b0000_0011,
            filter_bits(w@) == self@,
    {
        let mut w: [u8; 16] = self.0;
        let b: u8 = w[0];
        w[0] = (b & !RESERVED_MASK0) | 0b0000_0011;
        proof {
            lemma_wire_bits(self.0@);
            assert(w@ =~= wire_octets(self.0@));
        }
        w
    }

    /// The filter in these octets of a received frame. The reserved bits come
    /// along and take no part in matching.
    pub fn from_wire(bytes: [u8; 16]) -> (f: Self)
        ensures
            f.0 == bytes,
            f@ == filter_bits(bytes@),
    {
        Self(bytes)
    }
}

/// A filter matches after a trip over the air exactly what it matched before.
pub proof fn law_wire_round_trip(octets: Seq<u8>, mask: Set<int>)
    requires
        octets.len() == 16,
    ensures
        accepts(filter_bits(wire_octets(octets)), mask) == accepts(filter_bits(octets), mask),
{
    lemma_wire_bits(octets);
}

/// Inserting another name never loses a match, short of the admission cap.
pub proof fn law_insertion_is_monotone(
    frame: Set<int>,
    key: Seq<u8>,
    name: Seq<u8>,
    mask: Set<int>,
)
    requires
        accepts(frame, mask),
        frame.union(name_bits(key, name)).len() <= FILL_CAP,
    ensures
        accepts(frame.union(name_bits(key, name)), mask),
{
}

/// The usable bits of filter octets are all of their bits but the two lowest of the
/// first octet, in order, and there are no others.
pub proof fn law_usable_bits(octets: Seq<u8>, k: int, j: int, p: int)
    requires
        0 <= k < 16,
        0 <= j < 8,
    ensures
        8 * k + j >= 2 ==> filter_bits(octets).contains(8 * k + j - 2) == bits::byte_bit(
            octets[k],
            j,
        ),
        filter_bits(octets).contains(p) ==> 0 <= p < 126,
{
    assert((8 * k + j) / 8 == k && (8 * k + j) % 8 == j);
}

/// On air the two lowest bits of the first octet are set, and nothing else changes.
pub proof fn law_only_the_reserved_bits_are_forced(octets: Seq<u8>, i: int)
    requires
        octets.len() == 16,
    ensures
        wire_octets(octets).len() == 16,
        0 < i < 16 ==> wire_octets(octets)[i] == octets[i],
        wire_octets(octets)[0] % 4 == 3,
        wire_octets(octets)[0] / 4 == octets[0] / 4,
{
    let b = octets[0];
    assert(((b & !3u8) | 3u8) % 4 == 3 && ((b & !3u8) | 3u8) / 4 == b / 4) by (bit_vector);
}

/// A filter is accepted for a mask exactly where it has at most sixty-four bits and
/// lacks none of the mask's.
pub proof fn law_what_a_mask_accepts(frame: Set<int>, mask: Set<int>)
    ensures
        accepts(frame, mask) <==> frame.len() <= 64 && forall|p: int|
            #![trigger mask.contains(p)]
            mask.contains(p) ==> frame.contains(p),
{
}

/// The cuts of a name are the places behind its first byte at which it holds a slash,
/// each once and in order.
pub proof fn law_names_are_cut_at_slashes(name: Seq<u8>, j: int)
    ensures
        cuts(name).contains(j) <==> 1 <= j < name.len() && name[j] == 0x2f,
        forall|a: int, b: int| 0 <= a < b < cuts(name).len() ==> cuts(name)[a] < cuts(name)[b],
{
    lemma_cuts_are_slashes(name, name.len() as int, j);
}

proof fn lemma_cuts_are_slashes(name: Seq<u8>, end: int, j: int)
    requires
        end <= name.len(),
    ensures
        cuts_before(name, end).contains(j) <==> 1 <= j < end && name[j] == SLASH,
        forall|a: int, b: int|
            0 <= a < b < cuts_before(name, end).len() ==> cuts_before(name, end)[a] < cuts_before(
                name,
                end,
            )[b],
    decreases end,
{
    lemma_cuts_bounds(name, end);
    if end > 1 {
        lemma_cuts_are_slashes(name, end - 1, j);
        lemma_cuts_bounds(name, end - 1);
        let prev = cuts_before(name, end - 1);
        let here = cuts_before(name, end);
        if name[end - 1] == SLASH {
            assert(here == prev.push(end - 1));
            if prev.contains(j) {
                let i = choose|i: int| 0 <= i < prev.len() && prev[i] == j;
                assert(here[i] == j);
            }
            assert(here[prev.len() as int] == end - 1);
            if here.contains(j) {
                let i = choose|i: int| 0 <= i < here.len() && here[i] == j;
                if i < prev.len() {
                    assert(prev[i] == j);
                }
            }
        }
    }
}

/// Which prefixes of a name are inserted: the root, every prefix that it lies under with
/// at most six cuts, and the name itself with at most seven.
pub proof fn law_which_prefixes_are_inserted(name: Seq<u8>, prefix: Seq<u8>)
    ensures
        prefixes(name).contains(prefix) <==> is_under(name, prefix) && (prefix == root() || cuts(
            prefix,
        ).len() <= 6 || prefix == name && cuts(name).len() == 7),
        prefixes(name).len() <= 9,
{
    let c = cuts(name);
    let list = prefixes(name);
    let shown: int = if c.len() < 7 {
        c.len() as int
    } else {
        7
    };
    lemma_cuts_bounds(name, name.len() as int);
    assert(cuts(root()) =~= Seq::<int>::empty());
    if list.contains(prefix) {
        let i = choose|i: int| 0 <= i < list.len() && list[i] == prefix;
        if 1 <= i <= shown {
            let j = c[i - 1];
            assert(prefix == name.take(j));
            assert(name[j] == SLASH);
            lemma_cut_rank(name, i - 1);
            lemma_cuts_local(prefix, name, j);
            assert(cuts(prefix) == cuts_before(name, j));
        }
    }
    if is_under(name, prefix) && (prefix == root() || cuts(prefix).len() <= 6 || prefix == name
        && cuts(name).len() == 7) {
        if prefix == root() {
            assert(list[0] == root());
        } else if prefix == name && name.len() > 0 {
            assert(list.last() == name);
        } else {
            let j = choose|j: int|
                0 < j < name.len() && #[trigger] name[j] == SLASH && prefix == name.take(j);
            lemma_cuts_local(prefix, name, j);
            lemma_cuts_extend(name, j + 1, name.len() as int);
            let before = cuts_before(name, j);
            assert(cuts(prefix) == before);
            assert(cuts_before(name, j + 1) == before.push(j));
            assert(c[before.len() as int] == j) by {
                assert(cuts_before(name, j + 1)[before.len() as int] == j);
            }
            assert(list[before.len() as int + 1] == name.take(j));
        }
    }
}

/// As many cuts stand before a cut as its place among them.
proof fn lemma_cut_rank(name: Seq<u8>, i: int)
    requires
        0 <= i < cuts(name).len(),
    ensures
        cuts_before(name, cuts(name)[i]).len() == i,
{
    let c = cuts(name);
    let j = c[i];
    lemma_cuts_bounds(name, name.len() as int);
    lemma_cuts_extend(name, j, name.len() as int);
    lemma_cuts_extend(name, j + 1, name.len() as int);
    let before = cuts_before(name, j);
    assert(cuts_before(name, j + 1) == before.push(j));
    assert(c[before.len() as int] == j) by {
        assert(cuts_before(name, j + 1)[before.len() as int] == j);
    }
    lemma_cuts_are_slashes(name, name.len() as int, j);
    let n = before.len() as int;
    if n < i {
        assert(c[n] < c[i]);
    } else if i < n {
        assert(c[i] < c[n]);
    }
}

/// A registered prefix is matched as it stands where it has at most six cuts, and up to
/// its seventh cut where it has more.
pub proof fn law_deep_prefixes_are_clamped(prefix: Seq<u8>)
    ensures
        cuts(prefix).len() <= 6 ==> clamped(prefix) == prefix,
        cuts(prefix).len() > 6 ==> {
            let n = clamped(prefix).len() as int;
            &&& 0 < n < prefix.len()
            &&& clamped(prefix) == prefix.take(n)
            &&& prefix[n] == 0x2f
            &&& cuts(clamped(prefix)).len() == 6
        },
{
    let c = cuts(prefix);
    lemma_cuts_bounds(prefix, prefix.len() as int);
    if c.len() <= 6 {
        assert(clamped(prefix) =~= prefix);
    } else {
        let j = c[6];
        assert(clamped(prefix).len() == j);
        lemma_cut_rank(prefix, 6);
        lemma_cuts_local(clamped(prefix), prefix, j);
    }
}

/// The positions of a prefix come from its two hashes alone, by double hashing on their
/// low halves: they start at the first and step by the second, made odd.
pub proof fn law_positions_step_by_the_second_hash(h1: u64, h2: u64, i: int)
    requires
        0 <= i < 4,
    ensures
        ({
            let low = h2 as int % 0x1_0000_0000;
            let step = if low % 2 == 0 {
                low + 1
            } else {
                low
            };
            position(h1, h2, i) == ((h1 as int % 0x1_0000_0000 + i * step) % 0x1_0000_0000) % 126
        }),
{
    let a = h1 as u32;
    let b = h2 as u32;
    assert(a == h1 % 0x1_0000_0000 && b == h2 % 0x1_0000_0000) by (bit_vector)
        requires
            a == h1 as u32,
            b == h2 as u32,
    ;
    let s = b | 1u32;
    assert(s == (if b % 2 == 0 {
        (b + 1) as u32
    } else {
        b
    })) by (bit_vector)
        requires
            s == b | 1u32,
    ;
    let word = 0x1_0000_0000int;
    let product = i * s;
    let here = (i as u32).wrapping_mul(s);
    assert(here == product % word);
    let sum = a.wrapping_add(here);
    assert(sum == (a + here) % word);
    vstd::arithmetic::div_mod::lemma_add_mod_noop_right(a as int, product, word);
    assert((a + product % word) % word == (a + product) % word);
}

/// The bits of a prefix are its four positions, from the hash of the whole prefix under
/// the key and the hash under the second key.
pub proof fn law_bits_of_a_prefix(key: Seq<u8>, prefix: Seq<u8>, p: int)
    ensures
        prefix_bits(key, prefix).contains(p) <==> exists|i: int|
            0 <= i < 4 && p == #[trigger] position(
                hash::siphash24_of(key, prefix),
                hash::siphash24_of(key2_of(key), prefix),
                i,
            ),
{
    let h1 = hash::siphash24_of(key, prefix);
    let h2 = hash::siphash24_of(key2_of(key), prefix);
    if prefix_bits(key, prefix).contains(p) {
        assert(p == position(h1, h2, 0) || p == position(h1, h2, 1) || p == position(h1, h2, 2) || p
            == position(h1, h2, 3));
    }
}

/// The second key differs from the first in its first twelve bytes, each by a constant,
/// and in no other.
pub proof fn law_the_second_key(key: Seq<u8>, other: Seq<u8>, i: int)
    requires
        0 <= i < 16,
        key.len() == 16,
    ensures
        key2_of(key).len() == 16,
        i < 12 ==> key2_of(key)[i] != key[i],
        i >= 12 ==> key2_of(key)[i] == key[i],
        key2_of(key)[i] ^ key[i] == key2_of(other)[i] ^ other[i],
{
    let a = key[i];
    let b = other[i];
    let d = KEY2_DOMAIN[i];
    assert(d != 0 ==> a ^ d != a) by (bit_vector);
    assert(a ^ 0u8 == a) by (bit_vector);
    assert((a ^ d) ^ a == (b ^ d) ^ b) by (bit_vector);
}

/// The bits of a name are those of the prefixes that it is inserted by, all of them and
/// no others.
pub proof fn law_bits_of_a_name(key: Seq<u8>, name: Seq<u8>, p: int)
    ensures
        name_bits(key, name).contains(p) <==> exists|i: int|
            0 <= i < prefixes(name).len() && prefix_bits(
                key,
                #[trigger] prefixes(name)[i],
            ).contains(p),
{
    lemma_all_bits_are_of_some(key, prefixes(name), p);
}

proof fn lemma_all_bits_are_of_some(key: Seq<u8>, list: Seq<Seq<u8>>, p: int)
    ensures
        all_bits(key, list).contains(p) <==> exists|i: int|
            0 <= i < list.len() && prefix_bits(key, #[trigger] list[i]).contains(p),
    decreases list.len(),
{
    if list.len() > 0 {
        let head = list.drop_last();
        lemma_all_bits_are_of_some(key, head, p);
        if all_bits(key, head).contains(p) {
            let i = choose|i: int|
                0 <= i < head.len() && prefix_bits(key, #[trigger] head[i]).contains(p);
            assert(prefix_bits(key, list[i]).contains(p));
        }
        if prefix_bits(key, list.last()).contains(p) {
            assert(prefix_bits(key, list[list.len() - 1]).contains(p));
        }
        if exists|i: int| 0 <= i < list.len() && prefix_bits(key, #[trigger] list[i]).contains(p) {
            let i = choose|i: int|
                0 <= i < list.len() && prefix_bits(key, #[trigger] list[i]).contains(p);
            if i < head.len() {
                assert(prefix_bits(key, head[i]).contains(p));
            }
        }
    }
}

/// The mask of a registered prefix has the bits of the prefix as it is matched.
pub proof fn law_a_mask_is_the_clamped_prefix(key: Seq<u8>, prefix: Seq<u8>)
    ensures
        cuts(prefix).len() <= 6 ==> mask_bits(key, prefix) == prefix_bits(key, prefix),
        mask_bits(key, prefix) == prefix_bits(key, prefix.take(clamped(prefix).len() as int)),
{
    law_deep_prefixes_are_clamped(prefix);
    assert(prefix.take(clamped(prefix).len() as int) =~= clamped(prefix));
}

/// A filter as a value is the set of its usable bits.
pub proof fn law_a_filter_as_a_value(f: PrefixFilter)
    ensures
        f@ == filter_bits(f.0@),
{
}

/// The prefixes of a name stand root first and then by length, each longer than the one
/// before it, and the name itself comes last where it stands among them.
pub proof fn law_prefixes_stand_by_length(name: Seq<u8>, i: int, j: int)
    ensures
        prefixes(name)[0] == seq![0x2fu8],
        all_prefixes(name)[0] == seq![0x2fu8],
        1 <= i < j < prefixes(name).len() ==> prefixes(name)[i].len() < prefixes(name)[j].len(),
        1 <= i < j < all_prefixes(name).len() ==> all_prefixes(name)[i].len() < all_prefixes(
            name,
        )[j].len(),
        name.len() > 0 ==> all_prefixes(name).last() == name,
        name.len() > 0 && cuts(name).len() < 8 ==> prefixes(name).last() == name,
{
    lemma_cuts_bounds(name, name.len() as int);
    lemma_cuts_are_slashes(name, name.len() as int, 0);
    let c = cuts(name);
    assert forall|a: int, b: int| 0 <= a < b < c.len() implies c[a] < c[b] by {}
}

/// Every prefix that a name lies under stands among all of its prefixes, and nothing else
/// does.
pub proof fn law_all_prefixes_are_those_it_lies_under(name: Seq<u8>, prefix: Seq<u8>)
    ensures
        all_prefixes(name).contains(prefix) <==> prefix == seq![0x2fu8] || prefix == name
            && name.len() > 0 || exists|j: int|
            0 < j < name.len() && #[trigger] name[j] == 0x2f && prefix == name.take(j),
{
    lemma_all_prefixes(name, prefix);
}

} // verus!
