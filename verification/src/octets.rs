//! Numbers as octets, least significant first, and arithmetic that saturates.

use vstd::prelude::*;

verus! {

/// The number that the octets of `s` spell, the least significant first.
pub open spec fn little_endian(s: Seq<u8>) -> nat
    decreases s.len(),
{
    if s.len() == 0 {
        0
    } else {
        s[0] as nat + 256 * little_endian(s.skip(1))
    }
}

/// The `n` low octets of `v`, the least significant first.
pub open spec fn low_octets(v: nat, n: nat) -> Seq<u8>
    decreases n,
{
    if n == 0 {
        Seq::empty()
    } else {
        seq![(v % 256) as u8] + low_octets(v / 256, (n - 1) as nat)
    }
}

/// How many values `n` octets can take.
pub open spec fn octet_range(n: nat) -> nat
    decreases n,
{
    if n == 0 {
        1
    } else {
        256 * octet_range((n - 1) as nat)
    }
}

pub(crate) proof fn lemma_eight_octets()
    ensures
        octet_range(8) == 0x1_0000_0000_0000_0000,
{
    reveal_with_fuel(octet_range, 9);
}

pub(crate) proof fn lemma_octet_range_grows(a: nat, b: nat)
    requires
        a <= b,
    ensures
        0 < octet_range(a) <= octet_range(b),
    decreases b,
{
    if a < b {
        lemma_octet_range_grows(a, (b - 1) as nat);
    } else if a > 0 {
        lemma_octet_range_grows((a - 1) as nat, (a - 1) as nat);
    }
}

pub(crate) proof fn lemma_little_endian_bound(s: Seq<u8>)
    ensures
        little_endian(s) < octet_range(s.len()),
    decreases s.len(),
{
    if s.len() > 0 {
        lemma_little_endian_bound(s.skip(1));
    }
}

/// Reading back the low octets of a number gives the number, where they hold it.
pub proof fn lemma_octets_round_trip(v: nat, n: nat)
    requires
        v < octet_range(n),
    ensures
        low_octets(v, n).len() == n,
        little_endian(low_octets(v, n)) == v,
    decreases n,
{
    if n > 0 {
        lemma_octets_round_trip(v / 256, (n - 1) as nat);
        let all = low_octets(v, n);
        assert(all.skip(1) =~= low_octets(v / 256, (n - 1) as nat));
    }
}

/// Reads a number of at most eight octets.
pub fn read_little_endian(s: &[u8]) -> (v: u64)
    requires
        s.len() <= 8,
    ensures
        v == little_endian(s@),
{
    let mut v: u64 = 0;
    let mut i: usize = s.len();
    assert(s@.skip(i as int) =~= Seq::<u8>::empty());
    while i > 0
        invariant
            i <= s.len() <= 8,
            v == little_endian(s@.skip(i as int)),
        decreases i,
    {
        proof {
            let tail = s@.skip(i - 1);
            assert(tail.skip(1) =~= s@.skip(i as int));
            lemma_little_endian_bound(tail);
            lemma_octet_range_grows(tail.len(), 8);
            lemma_eight_octets();
        }
        v = v * 256 + s[i - 1] as u64;
        i = i - 1;
    }
    assert(s@.skip(0) =~= s@);
    v
}

/// The eight octets of a number.
pub fn write_little_endian(v: u64) -> (out: Vec<u8>)
    ensures
        out@ == low_octets(v as nat, 8),
        out@.len() == 8,
{
    let mut out: Vec<u8> = Vec::new();
    let mut rest: u64 = v;
    let mut i: usize = 0;
    while i < 8
        invariant
            i <= 8,
            out@.len() == i,
            out@ + low_octets(rest as nat, (8 - i) as nat) == low_octets(v as nat, 8),
        decreases 8 - i,
    {
        let ghost before = out@;
        out.push((rest % 256) as u8);
        proof {
            assert(out@ + low_octets((rest / 256) as nat, (8 - i - 1) as nat) =~= before
                + low_octets(rest as nat, (8 - i) as nat));
        }
        rest = rest / 256;
        i = i + 1;
    }
    assert(out@ =~= low_octets(v as nat, 8));
    out
}

/// The product, or the largest value where it does not fit.
pub open spec fn capped_product(a: int, b: int) -> int {
    if a * b <= u64::MAX {
        a * b
    } else {
        u64::MAX as int
    }
}

/// Multiplies and stays at the largest value where the product does not fit.
pub fn saturating_product(a: u64, b: u64) -> (r: u64)
    ensures
        r == capped_product(a as int, b as int),
{
    match a.checked_mul(b) {
        Some(p) => p,
        None => u64::MAX,
    }
}

/// Each octet weighs 256 times as much as the one before it.
pub proof fn law_octets_weigh_by_their_place(s: Seq<u8>, i: int)
    ensures
        little_endian(Seq::empty()) == 0,
        0 <= i < s.len() ==> little_endian(s.skip(i)) == s[i] + 256 * little_endian(s.skip(i + 1)),
        little_endian(s.skip(0)) == little_endian(s),
{
    assert(s.skip(0) =~= s);
    if 0 <= i < s.len() {
        assert(s.skip(i).skip(1) =~= s.skip(i + 1));
        assert(s.skip(i)[0] == s[i]);
    }
}

/// A number that is written as octets and read again is the same number, and octets that
/// are read and written again are the same octets.
pub proof fn law_octets_round_trip(v: nat, n: nat, s: Seq<u8>)
    requires
        v < octet_range(n),
    ensures
        low_octets(v, n).len() == n,
        little_endian(low_octets(v, n)) == v,
        low_octets(little_endian(s), s.len()) == s,
    decreases s.len(),
{
    lemma_octets_round_trip(v, n);
    lemma_octets_back(s);
}

proof fn lemma_octets_back(s: Seq<u8>)
    ensures
        low_octets(little_endian(s), s.len()) == s,
    decreases s.len(),
{
    if s.len() > 0 {
        let rest = s.skip(1);
        lemma_octets_back(rest);
        let v = little_endian(s);
        assert(v % 256 == s[0] && v / 256 == little_endian(rest));
        assert(seq![s[0]] + rest =~= s);
    } else {
        assert(low_octets(little_endian(s), 0) =~= s);
    }
}

/// The product is exact where it fits a word, and the largest word where it does not.
pub proof fn law_the_product_saturates(a: u64, b: u64)
    ensures
        a * b <= 0xffff_ffff_ffff_ffff ==> capped_product(a as int, b as int) == a * b,
        a * b > 0xffff_ffff_ffff_ffff ==> capped_product(a as int, b as int)
            == 0xffff_ffff_ffff_ffff,
{
}

} // verus!
