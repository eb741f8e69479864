//! The prefix set as a Golomb-coded set, for bearers that carry it in the frame
//! body and pay for every byte of it.
//!
//! On the wire: one octet with the number `n` of prefixes, then the gaps between
//! the sorted values of the prefixes, Rice-coded, most significant bit first. A
//! value is the keyed hash of a prefix modulo `n * 2^GCS_P`. Each gap is its
//! quotient by `2^GCS_P` in ones, a zero, and `GCS_P` remainder bits.

use vstd::prelude::*;

use crate::bits;
use crate::hash;
use crate::tier0;

verus! {

/// The Rice parameter: one false positive in about `2^GCS_P` queries.
pub const GCS_P: u32 = 8;

/// Octets that the coded gaps may fill.
pub const GCS_MAX_BYTES: usize = 24;

// ---------------------------------------------------------------------------
// The bit stream
// ---------------------------------------------------------------------------

/// The first `len` bits of `octets`, most significant first in each.
pub open spec fn stream(octets: Seq<u8>, len: int) -> Seq<bool> {
    Seq::new(len as nat, |i: int| bits::byte_bit(octets[i / 8], 7 - i % 8))
}

/// The eight bits of a remainder, most significant first.
pub open spec fn remainder_bits(r: u8) -> Seq<bool> {
    Seq::new(8, |i: int| bits::byte_bit(r, 7 - i))
}

/// The Rice code of a gap.
pub open spec fn rice_code(gap: int) -> Seq<bool> {
    Seq::new((gap / 256) as nat, |i: int| true).push(false) + remainder_bits((gap % 256) as u8)
}

/// The value before index `i`, or zero.
pub open spec fn value_before(vals: Seq<int>, i: int) -> int {
    if i <= 0 {
        0
    } else {
        vals[i - 1]
    }
}

/// The code of the first `i` values: the Rice codes of their gaps in a row.
pub open spec fn code(vals: Seq<int>, i: int) -> Seq<bool>
    decreases i,
{
    if i <= 0 {
        Seq::empty()
    } else {
        code(vals, i - 1) + rice_code(vals[i - 1] - value_before(vals, i - 1))
    }
}

/// How many set bits stand in a row at `pos`.
pub open spec fn run(s: Seq<bool>, pos: int) -> int
    decreases s.len() - pos,
{
    if 0 <= pos < s.len() && s[pos] {
        1 + run(s, pos + 1)
    } else {
        0
    }
}

/// The number in the first `n` bits at `pos`, most significant first.
pub open spec fn number(s: Seq<bool>, pos: int, n: int) -> int
    decreases n,
{
    if n <= 0 {
        0
    } else {
        2 * number(s, pos, n - 1) + if s[pos + n - 1] { 1int } else { 0int }
    }
}

/// The gap coded at `pos` and the position after it, if all its bits are there.
pub open spec fn gap_at(s: Seq<bool>, pos: int) -> Option<(int, int)> {
    let q = run(s, pos);
    if pos + q + 9 <= s.len() {
        Some((256 * q + number(s, pos + q + 1, 8), pos + q + 9))
    } else {
        None
    }
}

proof fn lemma_run_bounds(s: Seq<bool>, pos: int)
    requires
        0 <= pos <= s.len(),
    ensures
        0 <= run(s, pos) <= s.len() - pos,
        forall|i: int| pos <= i < pos + run(s, pos) ==> s[i],
        pos + run(s, pos) < s.len() ==> !s[pos + run(s, pos)],
    decreases s.len() - pos,
{
    if pos < s.len() && s[pos] {
        lemma_run_bounds(s, pos + 1);
    }
}

proof fn lemma_run_is(s: Seq<bool>, pos: int, q: int)
    requires
        0 <= pos,
        0 <= q,
        pos + q < s.len(),
        forall|i: int| pos <= i < pos + q ==> s[i],
        !s[pos + q],
    ensures
        run(s, pos) == q,
    decreases q,
{
    if q > 0 {
        lemma_run_is(s, pos + 1, q - 1);
    }
}

proof fn lemma_number_bounds(s: Seq<bool>, pos: int)
    ensures
        0 <= number(s, pos, 8) < 256,
{
    reveal_with_fuel(number, 9);
}

/// The values coded from `pos` on, each the sum of the gaps so far and `acc`.
pub open spec fn values_from(s: Seq<bool>, pos: int, acc: int) -> Seq<int>
    decreases s.len() - pos,
    when 0 <= pos <= s.len()
    via values_from_decreases
{
    match gap_at(s, pos) {
        None => Seq::empty(),
        Some((gap, next)) => seq![acc + gap] + values_from(s, next, acc + gap),
    }
}

#[via_fn]
proof fn values_from_decreases(s: Seq<bool>, pos: int, acc: int) {
    lemma_run_bounds(s, pos);
}

/// Every value is strictly above the one before it.
pub open spec fn increasing(vals: Seq<int>) -> bool {
    forall|i: int, j: int| 0 <= i < j < vals.len() ==> vals[i] < vals[j]
}

/// The values of the prefixes of `name`, with `m` the size of the value range.
pub open spec fn residues(key: Seq<u8>, name: Seq<u8>, m: int) -> Set<int> {
    Set::new(
        |v: int|
            exists|i: int|
                0 <= i < tier0::prefixes(name).len() && v == #[trigger] hash::siphash24_of(
                    key,
                    tier0::prefixes(name)[i],
                ) as int % m,
    )
}

// ---------------------------------------------------------------------------
// Decoding undoes coding
// ---------------------------------------------------------------------------

proof fn lemma_remainder_round_trip(s: Seq<bool>, pos: int, r: u8)
    requires
        forall|i: int| 0 <= i < 8 ==> s[pos + i] == #[trigger] remainder_bits(r)[i],
    ensures
        number(s, pos, 8) == r,
{
    reveal_with_fuel(number, 9);
    assert(r == (if r & (1u8 << 7u8) != 0 { 128int } else { 0 }) + (if r & (1u8 << 6u8) != 0 {
        64int
    } else {
        0
    }) + (if r & (1u8 << 5u8) != 0 { 32int } else { 0 }) + (if r & (1u8 << 4u8) != 0 {
        16int
    } else {
        0
    }) + (if r & (1u8 << 3u8) != 0 { 8int } else { 0 }) + (if r & (1u8 << 2u8) != 0 {
        4int
    } else {
        0
    }) + (if r & (1u8 << 1u8) != 0 { 2int } else { 0 }) + (if r & (1u8 << 0u8) != 0 {
        1int
    } else {
        0
    })) by (bit_vector);
    let b = remainder_bits(r);
    assert(s[pos] == b[0] && s[pos + 1] == b[1] && s[pos + 2] == b[2] && s[pos + 3] == b[3] && s[pos
        + 4] == b[4] && s[pos + 5] == b[5] && s[pos + 6] == b[6] && s[pos + 7] == b[7]);
}

/// Where a Rice code stands in the stream, the decoder finds its gap.
proof fn lemma_gap_round_trip(s: Seq<bool>, pos: int, gap: int)
    requires
        0 <= pos,
        0 <= gap,
        pos + rice_code(gap).len() <= s.len(),
        forall|i: int| 0 <= i < rice_code(gap).len() ==> s[pos + i] == #[trigger] rice_code(gap)[i],
    ensures
        gap_at(s, pos) == Some((gap, pos + rice_code(gap).len())),
        rice_code(gap).len() == gap / 256 + 9,
{
    let q = gap / 256;
    let c = rice_code(gap);
    assert(c.len() == q + 9);
    assert forall|i: int| pos <= i < pos + q implies s[i] by {
        assert(c[i - pos]);
    }
    assert(!c[q]);
    assert(!s[pos + q]);
    lemma_run_is(s, pos, q);
    assert forall|i: int| 0 <= i < 8 implies s[pos + q + 1 + i]
        == #[trigger] remainder_bits((gap % 256) as u8)[i] by {
        assert(s[pos + (q + 1 + i)] == c[q + 1 + i]);
        assert(c[q + 1 + i] == remainder_bits((gap % 256) as u8)[i]);
    }
    lemma_remainder_round_trip(s, pos + q + 1, (gap % 256) as u8);
}

proof fn lemma_code_extends(vals: Seq<int>, i: int, j: int)
    requires
        0 <= i <= j,
    ensures
        code(vals, i).len() <= code(vals, j).len(),
        code(vals, j).take(code(vals, i).len() as int) == code(vals, i),
    decreases j,
{
    if i < j {
        lemma_code_extends(vals, i, j - 1);
        assert(code(vals, j).take(code(vals, i).len() as int) =~= code(vals, j - 1).take(
            code(vals, i).len() as int,
        ));
    } else {
        assert(code(vals, j).take(code(vals, i).len() as int) =~= code(vals, i));
    }
}

/// A run of clear bits holds zero gaps only.
proof fn lemma_zeros_decode(s: Seq<bool>, pos: int, acc: int)
    requires
        0 <= pos <= s.len(),
        forall|i: int| pos <= i < s.len() ==> !s[i],
    ensures
        forall|i: int|
            0 <= i < values_from(s, pos, acc).len() ==> #[trigger] values_from(s, pos, acc)[i]
                == acc,
        s.len() - pos < 9 ==> values_from(s, pos, acc).len() == 0,
    decreases s.len() - pos,
{
    if pos + 9 <= s.len() {
        lemma_run_is(s, pos, 0);
        reveal_with_fuel(number, 9);
        assert(gap_at(s, pos) == Some((0int, pos + 9)));
        lemma_zeros_decode(s, pos + 9, acc);
        let rest = values_from(s, pos + 9, acc);
        assert(values_from(s, pos, acc) =~= seq![acc] + rest);
        assert forall|i: int| 0 <= i < values_from(s, pos, acc).len() implies
            #[trigger] values_from(s, pos, acc)[i] == acc by {
            if i > 0 {
                assert(values_from(s, pos, acc)[i] == rest[i - 1]);
            }
        }
    } else {
        lemma_run_bounds(s, pos);
    }
}

/// A stream that starts with the code of `vals` and goes on with clear bits
/// decodes to `vals`, followed by nothing but copies of the last value.
proof fn lemma_decode(vals: Seq<int>, s: Seq<bool>, i: int)
    requires
        increasing(vals),
        vals.len() > 0 ==> vals[0] >= 0,
        code(vals, vals.len() as int).len() <= s.len(),
        s.take(code(vals, vals.len() as int).len() as int) == code(vals, vals.len() as int),
        forall|k: int| code(vals, vals.len() as int).len() <= k < s.len() ==> !s[k],
        0 <= i <= vals.len(),
    ensures
        code(vals, i).len() <= s.len(),
        ({
            let got = values_from(s, code(vals, i).len() as int, value_before(vals, i));
            &&& got.len() >= vals.len() - i
            &&& forall|k: int| 0 <= k < vals.len() - i ==> got[k] == #[trigger] vals[i + k]
            &&& forall|k: int|
                vals.len() - i <= k < got.len() ==> #[trigger] got[k] == value_before(
                    vals,
                    vals.len() as int,
                )
            &&& s.len() - code(vals, vals.len() as int).len() < 9 ==> got.len() == vals.len() - i
        }),
    decreases vals.len() - i,
{
    let n = vals.len() as int;
    lemma_code_extends(vals, i, n);
    let pos = code(vals, i).len() as int;
    if i == n {
        lemma_zeros_decode(s, pos, value_before(vals, n));
    } else {
        lemma_decode(vals, s, i + 1);
        lemma_code_extends(vals, i + 1, n);
        let gap = vals[i] - value_before(vals, i);
        let c = rice_code(gap);
        if i > 0 {
            assert(vals[i - 1] < vals[i]);
        }
        assert(code(vals, i + 1) == code(vals, i) + c);
        assert forall|k: int| 0 <= k < c.len() implies s[pos + k] == #[trigger] c[k] by {
            assert(s.take(code(vals, n).len() as int)[pos + k] == code(vals, n)[pos + k]);
            assert(code(vals, n).take(code(vals, i + 1).len() as int)[pos + k] == code(
                vals,
                i + 1,
            )[pos + k]);
        }
        lemma_gap_round_trip(s, pos, gap);
        let next = code(vals, i + 1).len() as int;
        let rest = values_from(s, next, vals[i]);
        let got = values_from(s, pos, value_before(vals, i));
        assert(got =~= seq![vals[i]] + rest);
        assert forall|k: int| 0 <= k < n - i implies got[k] == #[trigger] vals[i + k] by {
            if k > 0 {
                assert(got[k] == rest[k - 1]);
                assert(rest[k - 1] == vals[i + 1 + (k - 1)]);
            }
        }
        assert forall|k: int| n - i <= k < got.len() implies #[trigger] got[k] == value_before(
            vals,
            n,
        ) by {
            assert(got[k] == rest[k - 1]);
        }
    }
}

/// The code of `i` increasing values below `m` takes nine bits a value and at
/// most one more for every 256 of the range.
proof fn lemma_code_size(vals: Seq<int>, i: int)
    requires
        increasing(vals),
        vals.len() > 0 ==> vals[0] >= 0,
        0 <= i <= vals.len(),
    ensures
        value_before(vals, i) >= 0,
        9 * i <= code(vals, i).len() <= 9 * i + value_before(vals, i) / 256,
    decreases i,
{
    if i > 0 {
        lemma_code_size(vals, i - 1);
        if i > 1 {
            assert(vals[i - 2] < vals[i - 1]);
        }
        let gap = vals[i - 1] - value_before(vals, i - 1);
        assert(rice_code(gap).len() == gap / 256 + 9);
    }
}

// ---------------------------------------------------------------------------
// Bit writer and reader
// ---------------------------------------------------------------------------

/// Writes bits most significant first into octets that start out clear.
struct BitW {
    buf: [u8; 24],
    pos: usize,
}

impl BitW {
    /// The bits written so far; everything after them is clear.
    spec fn wf(&self) -> bool {
        &&& self.pos <= 192
        &&& forall|i: int|
            self.pos <= i < 192 ==> !(#[trigger] stream(self.buf@, 192)[i])
    }

    spec fn written(&self) -> Seq<bool> {
        stream(self.buf@, self.pos as int)
    }

    fn bit(&mut self, b: bool)
        requires
            old(self).wf(),
            old(self).pos < 192,
        ensures
            final(self).wf(),
            final(self).written() == old(self).written().push(b),
    {
        let k: usize = self.pos / 8;
        let j: u8 = 7 - (self.pos % 8) as u8;
        let ghost before = self.buf@;
        let ghost at = self.pos as int;
        let old_byte: u8 = self.buf[k];
        if b {
            self.buf[k] = old_byte | bits::bit_mask(j);
        }
        self.pos = self.pos + 1;
        proof {
            assert forall|i: int| 0 <= i < 192 implies #[trigger] stream(self.buf@, 192)[i] == (
            stream(before, 192)[i] || b && i == at) by {
                if i / 8 == k && b {
                    bits::lemma_bit_set(old_byte, j as int, 7 - i % 8);
                }
            }
            assert forall|i: int| 0 <= i < at implies #[trigger] self.written()[i] == stream(
                before,
                at,
            )[i] by {
                assert(self.written()[i] == stream(self.buf@, 192)[i]);
                assert(stream(before, at)[i] == stream(before, 192)[i]);
            }
            assert(!stream(before, 192)[at]);
            assert(self.written()[at] == stream(self.buf@, 192)[at]);
            assert(self.written() =~= stream(before, at).push(b));
        }
    }

    /// The eight bits of a remainder.
    fn bits(&mut self, r: u8)
        requires
            old(self).wf(),
            old(self).pos + 8 <= 192,
        ensures
            final(self).wf(),
            final(self).written() == old(self).written() + remainder_bits(r),
    {
        let mut i: u8 = 0;
        let ghost start = self.written();
        assert(start + remainder_bits(r).take(0) =~= start);
        while i < 8
            invariant
                i <= 8,
                self.wf(),
                self.pos == old(self).pos + i,
                old(self).pos + 8 <= 192,
                start == old(self).written(),
                self.written() == start + remainder_bits(r).take(i as int),
            decreases 8 - i,
        {
            let b: bool = r & bits::bit_mask(7 - i) != 0;
            self.bit(b);
            i = i + 1;
            assert(self.written() =~= start + remainder_bits(r).take(i as int));
            assert(self.written().len() == self.pos);
        }
        assert(remainder_bits(r).take(8) =~= remainder_bits(r));
    }

    /// The Rice code of a gap.
    fn rice(&mut self, gap: u64)
        requires
            old(self).wf(),
            old(self).pos + gap / 256 + 9 <= 192,
        ensures
            final(self).wf(),
            final(self).written() == old(self).written() + rice_code(gap as int),
    {
        let q: u64 = gap / 256;
        let mut i: u64 = 0;
        let ghost start = self.written();
        assert(start =~= start + Seq::new(0, |i: int| true));
        while i < q
            invariant
                i <= q,
                self.wf(),
                self.pos == old(self).pos + i,
                old(self).pos + q + 9 <= 192,
                start == old(self).written(),
                self.written() == start + Seq::new(i as nat, |i: int| true),
            decreases q - i,
        {
            self.bit(true);
            i = i + 1;
            assert(self.written() =~= start + Seq::new(i as nat, |i: int| true));
            assert(self.written().len() == self.pos);
        }
        self.bit(false);
        assert(self.written().len() == self.pos);
        let ghost mid = self.written();
        assert(mid =~= start + Seq::new(q as nat, |i: int| true).push(false));
        self.bits((gap % 256) as u8);
        assert(self.written() =~= start + rice_code(gap as int));
    }
}

/// Reads bits most significant first, up to `len` of them.
struct BitR {
    buf: [u8; 24],
    pos: usize,
    len: usize,
}

impl BitR {
    spec fn wf(&self) -> bool {
        self.pos <= self.len <= 192
    }

    spec fn all(&self) -> Seq<bool> {
        stream(self.buf@, self.len as int)
    }

    fn bit(&mut self) -> (b: Option<bool>)
        requires
            old(self).wf(),
        ensures
            final(self).wf(),
            final(self).buf == old(self).buf,
            final(self).len == old(self).len,
            b == (if old(self).pos < old(self).len {
                Some(old(self).all()[old(self).pos as int])
            } else {
                None
            }),
            final(self).pos == (if old(self).pos < old(self).len {
                old(self).pos + 1
            } else {
                old(self).pos as int
            }),
    {
        if self.pos >= self.len {
            return None;
        }
        let j: u8 = 7 - (self.pos % 8) as u8;
        let b: bool = self.buf[self.pos / 8] & bits::bit_mask(j) != 0;
        self.pos = self.pos + 1;
        Some(b)
    }

    /// The number in the next eight bits.
    fn bits(&mut self) -> (v: Option<u64>)
        requires
            old(self).wf(),
        ensures
            final(self).wf(),
            final(self).buf == old(self).buf,
            final(self).len == old(self).len,
            v is Some == (old(self).pos + 8 <= old(self).len),
            v is Some ==> v->0 == number(old(self).all(), old(self).pos as int, 8)
                && final(self).pos == old(self).pos + 8,
    {
        let mut v: u64 = 0;
        let mut i: u64 = 0;
        while i < 8
            invariant
                i <= 8,
                self.wf(),
                old(self).wf(),
                self.buf == old(self).buf,
                self.len == old(self).len,
                self.pos == old(self).pos + i,
                v == number(old(self).all(), old(self).pos as int, i as int),
                v <= 0xff,
                i == 0 ==> v == 0,
                i == 1 ==> v < 2,
                i == 2 ==> v < 4,
                i == 3 ==> v < 8,
                i == 4 ==> v < 16,
                i == 5 ==> v < 32,
                i == 6 ==> v < 64,
                i == 7 ==> v < 128,
            decreases 8 - i,
        {
            match self.bit() {
                None => {
                    return None;
                },
                Some(b) => {
                    v = v * 2 + if b { 1 } else { 0 };
                },
            }
            i = i + 1;
        }
        Some(v)
    }

    /// The next gap, if all its bits are there.
    fn rice(&mut self) -> (gap: Option<u64>)
        requires
            old(self).wf(),
        ensures
            final(self).wf(),
            final(self).buf == old(self).buf,
            final(self).len == old(self).len,
            gap is Some == gap_at(old(self).all(), old(self).pos as int) is Some,
            gap is Some ==> gap_at(old(self).all(), old(self).pos as int) == Some(
                (gap->0 as int, final(self).pos as int),
            ),
            gap is Some ==> final(self).pos > old(self).pos && gap->0 <= 256 * (final(self).pos
                - old(self).pos),
    {
        let mut q: u64 = 0;
        let ghost s = self.all();
        let ghost start = self.pos as int;
        proof {
            lemma_run_bounds(s, start);
        }
        loop
            invariant_except_break
                self.pos == start + q,
            invariant
                self.wf(),
                old(self).wf(),
                self.buf == old(self).buf,
                self.len == old(self).len,
                s == old(self).all(),
                start == old(self).pos,
                q <= run(s, start),
                run(s, start) <= s.len() - start,
                forall|i: int| start <= i < start + run(s, start) ==> s[i],
                start + run(s, start) < s.len() ==> !s[start + run(s, start)],
            ensures
                self.wf(),
                self.buf == old(self).buf,
                self.len == old(self).len,
                q == run(s, start),
                self.pos == start + q + 1,
            decreases self.len - self.pos,
        {
            match self.bit() {
                None => {
                    return None;
                },
                Some(b) => {
                    if !b {
                        break ;
                    }
                },
            }
            q = q + 1;
        }
        proof {
            lemma_number_bounds(s, self.pos as int);
        }
        match self.bits() {
            None => None,
            Some(r) => Some(q * 256 + r),
        }
    }
}

// ---------------------------------------------------------------------------
// The filter
// ---------------------------------------------------------------------------

/// A prefix set as a Golomb-coded set in a fixed buffer.
#[derive(Clone, Copy, Debug)]
pub struct GcsFilter {
    /// Prefix count; it fixes the value range and rides the wire.
    pub n: u8,
    /// Bits used in `bytes`.
    pub bit_len: u16,
    /// The coded gaps.
    pub bytes: [u8; 24],
}

impl GcsFilter {
    /// The bits in use fit the buffer.
    pub open spec fn wf(&self) -> bool {
        self.bit_len <= 8 * GCS_MAX_BYTES
    }

    /// The size of the value range.
    pub open spec fn range(&self) -> int {
        256 * self.n
    }

    /// The bits in use.
    pub open spec fn code_bits(&self) -> Seq<bool> {
        stream(self.bytes@, self.bit_len as int)
    }

    /// The values that the filter holds.
    pub open spec fn values(&self) -> Seq<int> {
        values_from(self.code_bits(), 0, 0)
    }

    /// What a query for `prefix` answers: the value of the clamped prefix is held.
    pub open spec fn admits(&self, key: Seq<u8>, prefix: Seq<u8>) -> bool {
        self.n > 0 && self.values().contains(
            hash::siphash24_of(key, tier0::clamped(prefix)) as int % self.range(),
        )
    }

    /// The bits in use are the code of the filter's values, of which there is one at
    /// least, with clear bits behind it.
    pub open spec fn coded(&self) -> bool {
        &&& self.values().len() > 0
        &&& increasing(self.values())
        &&& self.code_bits() == code(self.values(), self.values().len() as int)
        &&& forall|i: int|
            self.bit_len <= i < 8 * GCS_MAX_BYTES ==> !(#[trigger] stream(
                self.bytes@,
                8 * GCS_MAX_BYTES as int,
            )[i])
    }

    /// The filter is the one that a sender of `name` makes: its values are those
    /// of the name's prefixes, each once and in increasing order, and its bits
    /// are their code with clear bits behind it.
    pub open spec fn encodes(&self, key: Seq<u8>, name: Seq<u8>) -> bool {
        &&& self.n == tier0::prefixes(name).len()
        &&& self.values().to_set() == residues(key, name, self.range())
        &&& self.coded()
    }

    /// The filter was made from names or read from octets: nothing but its values is
    /// coded in it, or its bits fill whole octets.
    pub open spec fn settled(&self) -> bool {
        self.coded() || self.bit_len % 8 == 0
    }

    /// The octets on air.
    pub open spec fn wire(&self) -> Seq<u8> {
        seq![self.n] + self.bytes@.take((self.bit_len + 7) / 8)
    }

    /// The filter is what a receiver reads from these octets: the count, then as
    /// much of the rest as the buffer takes, with clear octets behind it.
    pub open spec fn is_read_from(&self, wire: Seq<u8>) -> bool {
        let body = if wire.len() > 0 { wire.skip(1) } else { Seq::empty() };
        let nb = if body.len() < GCS_MAX_BYTES { body.len() as int } else { GCS_MAX_BYTES as int };
        &&& self.n == (if wire.len() > 0 { wire[0] } else { 0 })
        &&& self.bit_len == 8 * nb
        &&& self.bytes@ == body.take(nb) + Seq::new((GCS_MAX_BYTES - nb) as nat, |i: int| 0u8)
    }

    /// Codes every prefix of `name`, root first and capped at the depth limit.
    pub fn from_name(key: &[u8; 16], name: &[u8]) -> (f: Self)
        ensures
            f.wf(),
            f.encodes(key@, name@),
            f.wire().len() <= 13,
    {
        let list: Vec<Vec<u8>> = tier0::for_each_prefix(name);
        let mut hashes: Vec<u64> = Vec::new();
        let mut i: usize = 0;
        let ghost names = tier0::prefixes(name@);
        let ghost views = list@.map_values(|p: Vec<u8>| p@);
        proof {
            tier0::lemma_prefix_count(name@);
        }
        while i < list.len()
            invariant
                i <= list.len(),
                views == list@.map_values(|p: Vec<u8>| p@),
                names == views,
                hashes.len() == i,
                forall|j: int|
                    0 <= j < i ==> #[trigger] hashes[j] == hash::siphash24_of(key@, names[j]),
            decreases list.len() - i,
        {
            assert(views[i as int] == list[i as int]@);
            hashes.push(tier0::name_hash(key, list[i].as_slice()));
            i = i + 1;
        }
        let f = Self::from_hashes(&hashes);
        proof {
            assert forall|v: int| #[trigger] f.values().to_set().contains(v) == residues(
                key@,
                name@,
                f.range(),
            ).contains(v) by {
                assert(f.values().to_set().contains(v) == hash_residues(hashes@, f.range()).contains(v));
                if hash_residues(hashes@, f.range()).contains(v) {
                    let j = choose|j: int|
                        0 <= j < hashes.len() && v == #[trigger] hashes[j] as int % f.range();
                    assert(v == hash::siphash24_of(key@, tier0::prefixes(name@)[j]) as int
                        % f.range());
                }
                if residues(key@, name@, f.range()).contains(v) {
                    let j = choose|j: int|
                        0 <= j < names.len() && v == #[trigger] hash::siphash24_of(
                            key@,
                            names[j],
                        ) as int % f.range();
                    assert(v == hashes[j] as int % f.range());
                }
            }
            assert(f.values().to_set() =~= residues(key@, name@, f.range()));
        }
        f
    }

    /// Codes the values of up to nine prefix hashes.
    pub fn from_hashes(hashes: &Vec<u64>) -> (f: Self)
        requires
            1 <= hashes.len() <= 9,
        ensures
            f.wf(),
            f.n == hashes.len(),
            f.bit_len <= 89,
            f.coded(),
            f.values().to_set() == hash_residues(hashes@, f.range()),
    {
        let n: usize = hashes.len();
        let m: u64 = (n as u64) * 256;
        let mut vals: Vec<u64> = Vec::new();
        let mut i: usize = 0;
        while i < n
            invariant
                i <= n,
                n == hashes.len() <= 9,
                m == 256 * n,
                n >= 1,
                vals.len() <= i,
                increasing(vals@.map_values(|v: u64| v as int)),
                forall|j: int| 0 <= j < vals.len() ==> #[trigger] vals[j] < m,
                vals@.map_values(|v: u64| v as int).to_set() == hash_residues(
                    hashes@.take(i as int),
                    m as int,
                ),
            decreases n - i,
        {
            let v: u64 = hashes[i] % m;
            let ghost before = vals@.map_values(|v: u64| v as int);
            insert_value(&mut vals, v);
            i = i + 1;
            proof {
                let after = vals@.map_values(|v: u64| v as int);
                assert forall|x: int| #[trigger] after.to_set().contains(x) == hash_residues(
                    hashes@.take(i as int),
                    m as int,
                ).contains(x) by {
                    assert(before.to_set().contains(x) == hash_residues(
                        hashes@.take(i - 1),
                        m as int,
                    ).contains(x));
                    if hash_residues(hashes@.take(i as int), m as int).contains(x) {
                        let j = choose|j: int|
                            0 <= j < i && x == #[trigger] hashes@.take(i as int)[j] as int
                                % (m as int);
                        if j < i - 1 {
                            assert(hashes@.take(i - 1)[j] == hashes@.take(i as int)[j]);
                        }
                    }
                    if hash_residues(hashes@.take(i - 1), m as int).contains(x) {
                        let j = choose|j: int|
                            0 <= j < i - 1 && x == #[trigger] hashes@.take(i - 1)[j] as int
                                % (m as int);
                        assert(x == hashes@.take(i as int)[j] as int % (m as int));
                    }
                    assert(v as int == hashes@.take(i as int)[i - 1] as int % (m as int));
                }
                assert(after.to_set() =~= hash_residues(hashes@.take(i as int), m as int));
            }
        }
        assert(hashes@.take(n as int) =~= hashes@);
        let ghost ints = vals@.map_values(|v: u64| v as int);
        let mut w = BitW { buf: [0u8; 24], pos: 0 };
        proof {
            assert forall|i: int| 0 <= i < 192 implies !(#[trigger] stream(w.buf@, 192)[i]) by {
                bits::lemma_bit_of_zero(7 - i % 8);
            }
            assert(w.written() =~= code(ints, 0));
        }
        let mut prev: u64 = 0;
        let mut k: usize = 0;
        while k < vals.len()
            invariant
                k <= vals.len() <= 9,
                n <= 9,
                m == 256 * n,
                ints == vals@.map_values(|v: u64| v as int),
                increasing(ints),
                forall|j: int| 0 <= j < vals.len() ==> #[trigger] vals[j] < m,
                prev == value_before(ints, k as int),
                w.wf(),
                w.written() == code(ints, k as int),
                w.pos == code(ints, k as int).len(),
            decreases vals.len() - k,
        {
            let v: u64 = vals[k];
            proof {
                assert(ints[k as int] == v);
                if k > 0 {
                    assert(ints[k - 1] < ints[k as int]);
                }
                lemma_code_size(ints, k as int);
                lemma_code_size(ints, k + 1);
                assert(rice_code(v - prev).len() == (v - prev) / 256 + 9);
                assert(code(ints, k + 1).len() == code(ints, k as int).len() + rice_code(
                    v - prev,
                ).len());
            }
            w.rice(v - prev);
            assert(w.written().len() == w.pos);
            prev = v;
            k = k + 1;
        }
        proof {
            lemma_code_size(ints, ints.len() as int);
            if ints.len() > 0 {
                assert(ints.last() == vals[vals.len() - 1]);
            }
        }
        let f = GcsFilter { n: n as u8, bit_len: w.pos as u16, bytes: w.buf };
        proof {
            assert(f.code_bits() == code(ints, ints.len() as int));
            assert(f.code_bits().take(f.code_bits().len() as int) =~= f.code_bits());
            lemma_decode(ints, f.code_bits(), 0);
            let got = f.values();
            assert(code(ints, 0).len() == 0);
            assert(got.len() == ints.len());
            assert forall|j: int| 0 <= j < ints.len() implies got[j] == ints[j] by {
                assert(got[j] == ints[0 + j]);
            }
            assert(got =~= ints);
            let v = hashes@[0] as int % f.range();
            assert(hash_residues(hashes@, f.range()).contains(v));
            assert(got.to_set().contains(v));
        }
        f
    }

    /// Could a name with this filter be under `prefix`? `false` is exact.
    pub fn may_match(&self, key: &[u8; 16], prefix: &[u8]) -> (r: bool)
        requires
            self.wf(),
        ensures
            r == self.admits(key@, prefix@),
    {
        if self.n == 0 {
            return false;
        }
        let kept: Vec<u8> = tier0::slice_to_vec(prefix, tier0::clamp_prefix(prefix));
        self.holds_hash(tier0::name_hash(key, kept.as_slice()))
    }

    /// Does the filter hold the value of a prefix with the hash `h`?
    pub fn holds_hash(&self, h: u64) -> (r: bool)
        requires
            self.wf(),
            self.n > 0,
        ensures
            r == self.values().contains(h as int % self.range()),
    {
        let m: u64 = (self.n as u64) * 256;
        let q: u64 = h % m;
        let mut r = BitR { buf: self.bytes, pos: 0, len: self.bit_len as usize };
        let mut acc: u64 = 0;
        let ghost s = self.code_bits();
        loop
            invariant
                r.wf(),
                r.buf == self.bytes,
                r.len == self.bit_len,
                s == r.all(),
                s == self.code_bits(),
                q == h as int % self.range(),
                acc <= 256 * r.pos,
                acc < q || r.pos == 0 && acc == 0,
                self.values().contains(q as int) == values_from(s, r.pos as int, acc as int).contains(
                    q as int,
                ),
            decreases r.len - r.pos,
        {
            let ghost pos = r.pos as int;
            let ghost here = values_from(s, pos, acc as int);
            match r.rice() {
                None => {
                    assert(here.len() == 0);
                    return false;
                },
                Some(gap) => {
                    let ghost next = r.pos as int;
                    let ghost rest = values_from(s, next, acc + gap);
                    assert(here == seq![acc + gap] + rest);
                    acc = acc + gap;
                    proof {
                        lemma_values_lower_bound(s, next, acc as int);
                        if here.contains(q as int) {
                            let j = choose|j: int| 0 <= j < here.len() && here[j] == q;
                            if j > 0 {
                                assert(rest[j - 1] == q);
                            }
                        }
                        if rest.contains(q as int) {
                            let j = choose|j: int| 0 <= j < rest.len() && rest[j] == q;
                            assert(here[j + 1] == q);
                        }
                        assert(here[0] == acc);
                    }
                    if acc == q {
                        return true;
                    }
                    if acc > q {
                        assert(!rest.contains(q as int));
                        return false;
                    }
                },
            }
        }
    }

    /// Writes the filter to the front of `out` and returns how many octets it took.
    pub fn to_wire(&self, out: &mut [u8]) -> (len: usize)
        requires
            self.wf(),
            old(out).len() >= self.wire().len(),
        ensures
            len == self.wire().len(),
            final(out)@ == self.wire() + old(out)@.skip(self.wire().len() as int),
    {
        let nbytes: usize = (self.bit_len as usize + 7) / 8;
        let ghost before = out@;
        out[0] = self.n;
        let mut i: usize = 0;
        while i < nbytes
            invariant
                i <= nbytes <= 24,
                nbytes == (self.bit_len + 7) / 8,
                out.len() == before.len(),
                before.len() >= 1 + nbytes,
                out@[0] == self.n,
                forall|j: int| 0 <= j < i ==> #[trigger] out@[1 + j] == self.bytes[j],
                forall|j: int| 1 + i <= j < out.len() ==> out@[j] == before[j],
            decreases nbytes - i,
        {
            out[1 + i] = self.bytes[i];
            i = i + 1;
        }
        proof {
            assert forall|j: int| 0 <= j < out.len() implies out@[j] == (self.wire() + before.skip(
                self.wire().len() as int,
            ))[j] by {
                if 1 <= j < 1 + nbytes {
                    assert(out@[1 + (j - 1)] == self.bytes[j - 1]);
                }
            }
            assert(out@ =~= self.wire() + before.skip(self.wire().len() as int));
        }
        1 + nbytes
    }

    /// How many octets the filter takes on air.
    pub fn wire_len(&self) -> (len: usize)
        requires
            self.wf(),
        ensures
            len == self.wire().len(),
    {
        1 + (self.bit_len as usize + 7) / 8
    }

    /// The filter in these octets. What follows the buffer's size is ignored, and
    /// no octets at all are an empty filter.
    pub fn from_wire(wire: &[u8]) -> (f: Self)
        ensures
            f.wf(),
            f.is_read_from(wire@),
            f.settled(),
            f.wire().len() == 1 + (if wire@.len() == 0 {
                0
            } else if wire@.len() - 1 < GCS_MAX_BYTES {
                wire@.len() - 1
            } else {
                GCS_MAX_BYTES as int
            }),
    {
        let mut bytes: [u8; 24] = [0u8; 24];
        if wire.len() == 0 {
            assert(bytes@ =~= Seq::<u8>::empty().take(0) + Seq::new(24, |i: int| 0u8));
            return GcsFilter { n: 0, bit_len: 0, bytes };
        }
        let rest: usize = wire.len() - 1;
        let nb: usize = if rest < 24 { rest } else { 24 };
        let mut i: usize = 0;
        while i < nb
            invariant
                i <= nb <= 24,
                nb < wire.len(),
                forall|j: int| 0 <= j < i ==> bytes[j] == wire@[1 + j],
                forall|j: int| i <= j < 24 ==> bytes[j] == 0,
            decreases nb - i,
        {
            bytes[i] = wire[1 + i];
            i = i + 1;
        }
        assert(bytes@ =~= wire@.skip(1).take(nb as int) + Seq::new((24 - nb) as nat, |i: int| 0u8));
        GcsFilter { n: wire[0], bit_len: (nb * 8) as u16, bytes }
    }
}

/// The values of these hashes in a range of size `m`.
pub open spec fn hash_residues(hashes: Seq<u64>, m: int) -> Set<int> {
    Set::new(|v: int| exists|i: int| 0 <= i < hashes.len() && v == #[trigger] hashes[i] as int % m)
}

/// Inserts `v` in its place, unless it is there.
fn insert_value(vals: &mut Vec<u64>, v: u64)
    requires
        increasing(old(vals)@.map_values(|v: u64| v as int)),
    ensures
        increasing(final(vals)@.map_values(|v: u64| v as int)),
        final(vals)@.map_values(|v: u64| v as int).to_set() == old(vals)@.map_values(
            |v: u64| v as int,
        ).to_set().insert(v as int),
        final(vals).len() <= old(vals).len() + 1,
        forall|j: int|
            0 <= j < final(vals).len() ==> #[trigger] final(vals)[j] == v || old(vals)@.contains(
                final(vals)[j],
            ),
{
    let ghost before = vals@.map_values(|v: u64| v as int);
    let mut i: usize = 0;
    while i < vals.len() && vals[i] < v
        invariant
            i <= vals.len(),
            vals == old(vals),
            forall|j: int| 0 <= j < i ==> #[trigger] vals[j] < v,
        decreases vals.len() - i,
    {
        i = i + 1;
    }
    if i < vals.len() && vals[i] == v {
        proof {
            assert(before[i as int] == v);
            assert(before.to_set().contains(v as int));
            assert(before.to_set() =~= before.to_set().insert(v as int));
            assert forall|j: int| 0 <= j < vals.len() implies #[trigger] vals[j] == v || old(
                vals,
            )@.contains(vals[j]) by {
                assert(old(vals)@[j] == vals[j]);
            }
        }
        return;
    }
    assert forall|j: int| i <= j < vals.len() implies v < #[trigger] vals[j] by {
        if j > i {
            assert(before[i as int] < before[j]);
        }
    }
    vals.insert(i, v);
    proof {
        let after = vals@.map_values(|v: u64| v as int);
        assert(after =~= before.insert(i as int, v as int));
        assert(increasing(after)) by {
            assert forall|a: int, b: int| 0 <= a < b < after.len() implies after[a] < after[b] by {
                let a0 = if a < i { a } else { a - 1 };
                let b0 = if b < i { b } else { b - 1 };
                if a != i && b != i {
                    assert(before[a0] < before[b0]);
                } else if a == i {
                    assert(old(vals)[b0] == before[b0]);
                } else {
                    assert(old(vals)[a0] == before[a0]);
                }
            }
        }
        assert forall|x: int| #[trigger] after.to_set().contains(x) == before.to_set().insert(
            v as int,
        ).contains(x) by {
            if after.to_set().contains(x) {
                let j = choose|j: int| 0 <= j < after.len() && after[j] == x;
                if j < i {
                    assert(before[j] == x);
                } else if j > i {
                    assert(before[j - 1] == x);
                }
            }
            if before.to_set().contains(x) {
                let j = choose|j: int| 0 <= j < before.len() && before[j] == x;
                if j < i {
                    assert(after[j] == x);
                } else {
                    assert(after[j + 1] == x);
                }
            }
            assert(after[i as int] == v);
        }
        assert(after.to_set() =~= before.to_set().insert(v as int));
        assert forall|j: int| 0 <= j < vals.len() implies #[trigger] vals[j] == v || old(
            vals,
        )@.contains(vals[j]) by {
            if j < i {
                assert(old(vals)@[j] == vals[j]);
            } else if j > i {
                assert(old(vals)@[j - 1] == vals[j]);
            }
        }
    }
}

proof fn lemma_values_lower_bound(s: Seq<bool>, pos: int, acc: int)
    requires
        0 <= pos <= s.len(),
    ensures
        forall|i: int|
            0 <= i < values_from(s, pos, acc).len() ==> acc <= #[trigger] values_from(
                s,
                pos,
                acc,
            )[i],
    decreases s.len() - pos,
{
    lemma_run_bounds(s, pos);
    match gap_at(s, pos) {
        None => {},
        Some((gap, next)) => {
            lemma_number_bounds(s, pos + run(s, pos) + 1);
            lemma_values_lower_bound(s, next, acc + gap);
            let rest = values_from(s, next, acc + gap);
            assert forall|i: int| 0 <= i < values_from(s, pos, acc).len() implies acc
                <= #[trigger] values_from(s, pos, acc)[i] by {
                if i > 0 {
                    assert(values_from(s, pos, acc)[i] == rest[i - 1]);
                }
            }
        },
    }
}

// ---------------------------------------------------------------------------
// Laws
// ---------------------------------------------------------------------------

/// No false negative: the filter of a name admits every prefix that the name
/// lies under, whatever the depth of either.
pub proof fn law_gcs_no_false_negative(
    f: GcsFilter,
    key: Seq<u8>,
    name: Seq<u8>,
    prefix: Seq<u8>,
)
    requires
        f.encodes(key, name),
        tier0::is_under(name, prefix),
    ensures
        f.admits(key, prefix),
{
    tier0::lemma_prefix_count(name);
    tier0::lemma_clamped_prefix_is_inserted(name, prefix);
    let list = tier0::prefixes(name);
    let i = choose|i: int| 0 <= i < list.len() && list[i] == tier0::clamped(prefix);
    let v = hash::siphash24_of(key, tier0::clamped(prefix)) as int % f.range();
    assert(v == hash::siphash24_of(key, list[i]) as int % f.range());
    assert(residues(key, name, f.range()).contains(v));
    assert(f.values().to_set().contains(v));
}

/// A filter survives the wire: what a receiver reads from its octets answers every
/// query under every key as the filter does, and takes the same octets on air.
pub proof fn law_gcs_survives_the_wire(f: GcsFilter, g: GcsFilter)
    requires
        f.wf(),
        f.settled(),
        g.is_read_from(f.wire()),
    ensures
        forall|key: Seq<u8>, prefix: Seq<u8>| #[trigger]
            g.admits(key, prefix) == f.admits(key, prefix),
        g.wire() == f.wire(),
{
    let nb = (f.bit_len as int + 7) / 8;
    let wire = f.wire();
    assert(wire.skip(1) =~= f.bytes@.take(nb));
    assert(g.wire() =~= f.wire());
    if f.coded() {
        assert(wire + Seq::new(0, |i: int| 0u8) =~= wire);
        law_gcs_padding_changes_nothing(f, g, 0);
    } else {
        assert forall|i: int| 0 <= i < f.bit_len implies g.code_bits()[i] == f.code_bits()[i] by {
            assert(g.bytes@[i / 8] == f.bytes@[i / 8]);
        }
        assert(g.code_bits() =~= f.code_bits());
    }
}

/// The exact bit length need not ride the wire. A receiver that reads the octets of
/// a coded filter, with any number of clear octets behind them, answers every query
/// under every key as the filter does.
pub proof fn law_gcs_padding_changes_nothing(f: GcsFilter, g: GcsFilter, pad: nat)
    requires
        f.wf(),
        f.coded(),
        g.is_read_from(f.wire() + Seq::new(pad, |i: int| 0u8)),
    ensures
        forall|key: Seq<u8>, prefix: Seq<u8>| #[trigger]
            g.admits(key, prefix) == f.admits(key, prefix),
{
    let vals = f.values();
    let n = vals.len() as int;
    let s = g.code_bits();
    let c = code(vals, n);
    let nb = (f.bit_len as int + 7) / 8;
    let wire = f.wire() + Seq::new(pad, |i: int| 0u8);
    assert(wire.skip(1) =~= f.bytes@.take(nb) + Seq::new(pad, |i: int| 0u8));
    assert(g.n == f.n);
    assert(g.bit_len >= 8 * nb >= f.bit_len);
    assert forall|j: int| 0 <= j < 24 implies g.bytes@[j] == (if j < nb { f.bytes@[j] } else { 0 })
        by {};
    assert forall|i: int| 0 <= i < s.len() implies #[trigger] s[i] == (i < f.bit_len && c[i]) by {
        if i < 8 * nb {
            assert(g.bytes@[i / 8] == f.bytes@[i / 8]);
            if i < f.bit_len {
                assert(f.code_bits()[i] == c[i]);
            } else {
                assert(!stream(f.bytes@, 8 * GCS_MAX_BYTES as int)[i]);
            }
        } else {
            assert(g.bytes@[i / 8] == 0);
            bits::lemma_bit_of_zero(7 - i % 8);
        }
    }
    assert(s.take(c.len() as int) =~= c);
    lemma_values_lower_bound(f.code_bits(), 0, 0);
    assert(vals[0] >= 0);
    lemma_decode(vals, s, 0);
    assert(code(vals, 0).len() == 0);
    let got = g.values();
    assert forall|q: int| got.contains(q) == #[trigger] vals.contains(q) by {
        if got.contains(q) {
            let j = choose|j: int| 0 <= j < got.len() && got[j] == q;
            if j < n {
                assert(got[j] == vals[0 + j]);
            } else {
                assert(got[j] == vals[n - 1]);
            }
        }
        if vals.contains(q) {
            let j = choose|j: int| 0 <= j < n && vals[j] == q;
            assert(got[j] == vals[0 + j]);
        }
    }
    assert forall|key: Seq<u8>, prefix: Seq<u8>| #[trigger]
        g.admits(key, prefix) == f.admits(key, prefix) by {
        assert(g.range() == f.range());
        let q = hash::siphash24_of(key, tier0::clamped(prefix)) as int % f.range();
        assert(got.contains(q) == vals.contains(q));
    }
}

/// The two forms of the prefix set agree on every prefix that a name lies under:
/// both admit it, so a deployment may pick the form per bearer.
pub proof fn law_gcs_and_bloom_agree(
    f: GcsFilter,
    key: Seq<u8>,
    name: Seq<u8>,
    prefix: Seq<u8>,
)
    requires
        f.encodes(key, name),
        tier0::is_under(name, prefix),
    ensures
        f.admits(key, prefix) == tier0::accepts(
            tier0::name_bits(key, name),
            tier0::mask_bits(key, prefix),
        ),
{
    law_gcs_no_false_negative(f, key, name, prefix);
    tier0::law_no_false_negative(key, name, prefix);
}

/// The bits of octets are read most significant first in each.
pub proof fn law_bits_are_read_from_the_top(octets: Seq<u8>, len: int, k: int, j: int)
    requires
        0 <= k,
        0 <= j < 8,
        8 * k + j < len,
    ensures
        stream(octets, len).len() == len,
        stream(octets, len)[8 * k + j] == bits::byte_bit(octets[k], 7 - j),
{
    assert((8 * k + j) / 8 == k && (8 * k + j) % 8 == j);
}

/// A gap is coded as its quotient by 256 in ones, a zero, and its remainder in eight bits.
pub proof fn law_the_code_of_a_gap(gap: int, i: int)
    requires
        gap >= 0,
    ensures
        rice_code(gap).len() == gap / 256 + 9,
        0 <= i < gap / 256 ==> rice_code(gap)[i],
        !rice_code(gap)[gap / 256],
        0 <= i < 8 ==> rice_code(gap)[gap / 256 + 1 + i] == bits::byte_bit(
            (gap % 256) as u8,
            7 - i,
        ),
{
}

/// A coded gap is read back as it was, whatever its size and whatever follows it.
pub proof fn law_a_gap_is_read_back(before: Seq<bool>, gap: int, rest: Seq<bool>)
    requires
        gap >= 0,
    ensures
        gap_at(before + rice_code(gap) + rest, before.len() as int) == Some(
            (gap, (before.len() + rice_code(gap).len()) as int),
        ),
{
    let s = before + rice_code(gap) + rest;
    assert forall|i: int| 0 <= i < rice_code(gap).len() implies s[before.len() + i]
        == #[trigger] rice_code(gap)[i] by {}
    lemma_gap_round_trip(s, before.len() as int, gap);
}

/// A gap whose bits run out is not read.
pub proof fn law_a_cut_gap_is_not_read(before: Seq<bool>, gap: int, n: int)
    requires
        gap >= 0,
        0 <= n < rice_code(gap).len(),
    ensures
        gap_at(before + rice_code(gap).take(n), before.len() as int) is None,
{
    let c = rice_code(gap);
    let s = before + c.take(n);
    let q = gap / 256;
    let pos = before.len() as int;
    lemma_run_bounds(s, pos);
    if n > q {
        assert forall|i: int| pos <= i < pos + q implies s[i] by {
            assert(s[i] == c[i - pos]);
        }
        assert(s[pos + q] == c[q]);
        lemma_run_is(s, pos, q);
    } else {
        let r = run(s, pos);
        if r < n {
            assert(s[pos + r] == c[r]);
        }
    }
}

/// Increasing values that are coded are read back, all of them and in order.
pub proof fn law_coded_values_are_read_back(vals: Seq<int>)
    requires
        increasing(vals),
        vals.len() > 0 ==> vals[0] >= 0,
    ensures
        values_from(code(vals, vals.len() as int), 0, 0) == vals,
{
    let s = code(vals, vals.len() as int);
    assert(s.take(s.len() as int) =~= s);
    lemma_decode(vals, s, 0);
    assert(code(vals, 0).len() == 0);
    let got = values_from(s, 0, 0);
    assert(got.len() == vals.len());
    assert forall|k: int| 0 <= k < vals.len() implies got[k] == vals[k] by {
        assert(got[k] == vals[0 + k]);
    }
    assert(got =~= vals);
}

/// The code of values is that of their gaps in a row, from the first value on.
pub proof fn law_values_are_coded_by_their_gaps(vals: Seq<int>, i: int)
    requires
        0 < i <= vals.len(),
    ensures
        code(vals, 0) == Seq::<bool>::empty(),
        i == 1 ==> code(vals, i) == rice_code(vals[0]),
        i > 1 ==> code(vals, i) == code(vals, i - 1) + rice_code(vals[i - 1] - vals[i - 2]),
{
    if i == 1 {
        assert(code(vals, 1) =~= rice_code(vals[0])) by {
            assert(code(vals, 0) =~= Seq::<bool>::empty());
        }
    }
}

/// A filter that a sender of a name makes counts the prefixes that the name is inserted
/// by, and holds the value of each of them, once and in order, and nothing else.
pub proof fn law_what_a_names_filter_holds(f: GcsFilter, key: Seq<u8>, name: Seq<u8>, v: int)
    requires
        f.encodes(key, name),
    ensures
        f.n == tier0::prefixes(name).len(),
        f.values().contains(v) <==> exists|i: int|
            0 <= i < tier0::prefixes(name).len() && v == #[trigger] hash::siphash24_of(
                key,
                tier0::prefixes(name)[i],
            ) as int % (256 * tier0::prefixes(name).len() as int),
        forall|i: int, j: int| 0 <= i < j < f.values().len() ==> f.values()[i] < f.values()[j],
{
    assert(f.values().to_set().contains(v) == f.values().contains(v));
    assert(f.range() == 256 * tier0::prefixes(name).len());
    assert(residues(key, name, f.range()).contains(v) <==> exists|i: int|
        0 <= i < tier0::prefixes(name).len() && v == #[trigger] hash::siphash24_of(
            key,
            tier0::prefixes(name)[i],
        ) as int % f.range());
}

/// A query is answered by the value of the prefix as it is matched, in a range of 256 per
/// prefix of the filter; an empty filter admits nothing.
pub proof fn law_how_a_query_is_answered(f: GcsFilter, key: Seq<u8>, prefix: Seq<u8>)
    ensures
        f.n == 0 ==> !f.admits(key, prefix),
        f.n > 0 ==> (f.admits(key, prefix) <==> f.values().contains(
            hash::siphash24_of(key, tier0::clamped(prefix)) as int % (256 * f.n),
        )),
        f.values() == values_from(stream(f.bytes@, f.bit_len as int), 0, 0),
{
}

/// On air a filter is its count and as many octets as its bits fill.
pub proof fn law_the_wire_form_of_a_filter(f: GcsFilter, i: int)
    requires
        f.wf(),
    ensures
        f.bit_len <= 192,
        f.wire().len() == 1 + (f.bit_len + 7) / 8,
        f.wire()[0] == f.n,
        1 <= i < f.wire().len() ==> f.wire()[i] == f.bytes@[i - 1],
{
}

/// A filter is read from octets one by one: the count, then up to twenty-four octets,
/// with zeros where there are none; no octets are an empty filter.
pub proof fn law_how_a_filter_is_read(f: GcsFilter, wire: Seq<u8>, i: int)
    requires
        f.is_read_from(wire),
        0 <= i < 24,
    ensures
        wire.len() == 0 ==> f.n == 0 && f.bit_len == 0,
        wire.len() > 0 ==> f.n == wire[0],
        1 <= wire.len() <= 25 ==> f.bit_len == 8 * (wire.len() - 1),
        wire.len() > 25 ==> f.bit_len == 192,
        f.bytes@[i] == (if i + 1 < wire.len() {
            wire[i + 1]
        } else {
            0u8
        }),
{
}

/// The values of hashes are their remainders, each hash giving one.
pub proof fn law_hashes_are_reduced_into_the_range(hashes: Seq<u64>, m: int, v: int)
    ensures
        hash_residues(hashes, m).contains(v) <==> exists|i: int|
            0 <= i < hashes.len() && v == #[trigger] hashes[i] as int % m,
{
}

/// Bits in use are the code of increasing values, of which there is one, and behind them
/// every bit of the buffer is clear.
pub proof fn law_the_form_of_a_coded_filter(f: GcsFilter, i: int)
    requires
        f.coded(),
        f.bit_len <= i < 192,
    ensures
        f.values().len() > 0,
        stream(f.bytes@, f.bit_len as int) == code(f.values(), f.values().len() as int),
        !bits::byte_bit(f.bytes@[i / 8], 7 - i % 8),
{
    assert(!stream(f.bytes@, 8 * GCS_MAX_BYTES as int)[i]);
}

/// Where a stream is read from does not matter, only what stands from there on.
proof fn lemma_reading_is_local(before: Seq<bool>, s: Seq<bool>, pos: int, acc: int)
    requires
        0 <= pos <= s.len(),
    ensures
        values_from(before + s, before.len() + pos, acc) == values_from(s, pos, acc),
    decreases s.len() - pos,
{
    let all = before + s;
    let b = before.len() as int;
    lemma_run_bounds(s, pos);
    lemma_run_bounds(all, b + pos);
    let q = run(s, pos);
    lemma_run_is_local(before, s, pos);
    assert(run(all, b + pos) == q);
    if pos + q + 9 <= s.len() {
        lemma_number_is_local(before, s, pos + q + 1, 8);
        lemma_number_bounds(s, pos + q + 1);
        let gap = 256 * q + number(s, pos + q + 1, 8);
        lemma_reading_is_local(before, s, pos + q + 9, acc + gap);
        assert(gap_at(all, b + pos) == Some((gap, b + pos + q + 9)));
    } else {
        assert(gap_at(all, b + pos) is None);
        assert(gap_at(s, pos) is None);
    }
}

proof fn lemma_run_is_local(before: Seq<bool>, s: Seq<bool>, pos: int)
    requires
        0 <= pos <= s.len(),
    ensures
        run(before + s, before.len() + pos) == run(s, pos),
    decreases s.len() - pos,
{
    if pos < s.len() {
        assert((before + s)[before.len() + pos] == s[pos]);
        if s[pos] {
            lemma_run_is_local(before, s, pos + 1);
        }
    }
}

proof fn lemma_number_is_local(before: Seq<bool>, s: Seq<bool>, pos: int, n: int)
    requires
        0 <= pos,
        pos + n <= s.len(),
    ensures
        number(before + s, before.len() + pos, n) == number(s, pos, n),
    decreases n,
{
    if n > 0 {
        lemma_number_is_local(before, s, pos, n - 1);
        assert((before + s)[before.len() + pos + n - 1] == s[pos + n - 1]);
    }
}

/// Whatever stands in a stream, it is read gap by gap: each gap adds to the value before
/// it, and what is left over at the end is no value.
pub proof fn law_a_stream_is_read_gap_by_gap(gap: int, rest: Seq<bool>, acc: int, n: int)
    requires
        gap >= 0,
        0 <= n < rice_code(gap).len(),
    ensures
        values_from(rice_code(gap) + rest, 0, acc) == seq![acc + gap] + values_from(
            rest,
            0,
            acc + gap,
        ),
        values_from(rice_code(gap).take(n), 0, acc) == Seq::<int>::empty(),
{
    let c = rice_code(gap);
    let s = c + rest;
    assert(Seq::<bool>::empty() + c + rest =~= s);
    law_a_gap_is_read_back(Seq::empty(), gap, rest);
    lemma_reading_is_local(c, rest, 0, acc + gap);
    law_a_cut_gap_is_not_read(Seq::empty(), gap, n);
    assert(Seq::<bool>::empty() + c.take(n) =~= c.take(n));
}

/// A filter spans no more than its octets, and each of its values has 256 places
/// of its own. Its bits end with its code or with an octet.
pub proof fn law_the_form_of_a_filter(f: GcsFilter)
    ensures
        f.wf() <==> f.bit_len <= 192,
        f.range() == f.n * 256,
        f.coded() ==> f.settled(),
        f.bit_len % 8 == 0 ==> f.settled(),
        f.settled() && f.bit_len % 8 != 0 ==> f.coded(),
{
}

} // verus!
