//! The receive-side admission gate: Tier 0 on the address octets, then Tier 1 on
//! the parsed name.

use vstd::prelude::*;

use crate::bits;
use crate::tier0;
use crate::tier0::PrefixFilter;
use crate::tier1;
use crate::tier1::Tier1;

verus! {

/// The group address that every receiver takes.
pub const BROADCAST: [u8; 6] = [0xff, 0xff, 0xff, 0xff, 0xff, 0xff];

/// Which frames pass Tier 0.
pub enum RxFilter {
    /// Every frame.
    Open,
    /// Frames whose in-frame filter could be under one of these registered masks.
    Bloom(Vec<PrefixFilter>),
    /// The receiver-side baseline that is asked with the parsed name.
    NdnNic,
}

/// Are the two addresses the same?
pub(crate) fn same_address(a: &[u8; 6], b: &[u8; 6]) -> (r: bool)
    ensures
        r == (a@ == b@),
{
    let mut i: usize = 0;
    while i < 6
        invariant
            i <= 6,
            forall|j: int| 0 <= j < i ==> a[j] == b[j],
        decreases 6 - i,
    {
        if a[i] != b[i] {
            assert(a@[i as int] != b@[i as int]);
            return false;
        }
        i = i + 1;
    }
    assert(a@ =~= b@);
    true
}

/// The filter octets that a frame's addresses carry: all of the first two and the
/// first four of the third. They read clear where the third was not captured.
pub open spec fn frame_octets(addr1: Seq<u8>, addr2: Seq<u8>, addr3: Option<Seq<u8>>) -> Seq<u8> {
    addr1 + addr2 + match addr3 {
        Some(a) => a.take(4),
        None => Seq::new(4, |i: int| 0u8),
    }
}

/// The bits of a mask that can be tested: those in the first two addresses, and
/// those in the third where it was captured. Bits that are not known are not
/// held against a frame.
pub open spec fn testable(mask: Set<int>, third_known: bool) -> Set<int> {
    if third_known {
        mask
    } else {
        mask.filter(|p: int| p + 2 < 96)
    }
}

/// The third address as a value.
pub open spec fn addr_view(a: Option<[u8; 6]>) -> Option<Seq<u8>> {
    match a {
        Some(x) => Some(x@),
        None => None,
    }
}

/// The filter octets of a frame with these addresses.
pub fn filter_octets(addr1: &[u8; 6], addr2: &[u8; 6], addr3: Option<[u8; 6]>) -> (w: [u8; 16])
    ensures
        w@ == frame_octets(addr1@, addr2@, addr_view(addr3)),
{
    let mut w: [u8; 16] = [0u8; 16];
    let mut i: usize = 0;
    while i < 6
        invariant
            i <= 6,
            forall|j: int| 0 <= j < i ==> w[j] == addr1[j],
            forall|j: int| 0 <= j < i ==> #[trigger] w[6 + j] == addr2[j],
            forall|j: int| 12 <= j < 16 ==> w[j] == 0,
        decreases 6 - i,
    {
        w[i] = addr1[i];
        w[6 + i] = addr2[i];
        i = i + 1;
    }
    if let Some(a) = addr3 {
        w[12] = a[0];
        w[13] = a[1];
        w[14] = a[2];
        w[15] = a[3];
    }
    proof {
        assert forall|j: int| 0 <= j < 16 implies w@[j] == frame_octets(
            addr1@,
            addr2@,
            addr_view(addr3),
        )[j] by {
            if 6 <= j < 12 {
                assert(w[6 + (j - 6)] == addr2[j - 6]);
            }
        }
        assert(w@ =~= frame_octets(addr1@, addr2@, addr_view(addr3)));
    }
    w
}

/// The mask without the bits that ride in the third address.
pub(crate) fn without_third(mask: &PrefixFilter) -> (m: PrefixFilter)
    ensures
        m@ == testable(mask@, false),
{
    let mut b: [u8; 16] = mask.0;
    b[12] = 0;
    b[13] = 0;
    b[14] = 0;
    b[15] = 0;
    let m = PrefixFilter(b);
    proof {
        assert forall|p: int| #[trigger] m@.contains(p) == testable(mask@, false).contains(p) by {
            if 0 <= p < tier0::M_BITS && (p + 2) / 8 >= 12 {
                bits::lemma_bit_of_zero((p + 2) % 8);
            }
        }
        assert(m@ =~= testable(mask@, false));
    }
    m
}

/// What is accepted in full is accepted on the bits that can be tested.
pub(crate) proof fn lemma_testable_is_accepted(frame: Set<int>, mask: Set<int>)
    requires
        frame.finite(),
        tier0::accepts(frame, mask),
    ensures
        tier0::accepts(testable(frame, false), testable(mask, false)),
{
    let kept = testable(frame, false);
    assert(kept.subset_of(frame));
    vstd::set_lib::lemma_len_subset(kept, frame);
}

/// Losing the third address loses the bits that ride in it, and no others.
pub(crate) proof fn lemma_octets_without_third(w: Seq<u8>)
    requires
        w.len() == 16,
    ensures
        tier0::filter_bits(frame_octets(w.take(6), w.subrange(6, 12), None))
            == testable(tier0::filter_bits(w), false),
{
    let part = frame_octets(w.take(6), w.subrange(6, 12), None);
    assert(part =~= w.take(12) + Seq::new(4, |i: int| 0u8));
    let kept = tier0::filter_bits(part);
    let want = testable(tier0::filter_bits(w), false);
    assert forall|p: int| #[trigger] kept.contains(p) == want.contains(p) by {
        if 0 <= p < tier0::M_BITS {
            if (p + 2) / 8 >= 12 {
                assert(part[(p + 2) / 8] == 0);
                bits::lemma_bit_of_zero((p + 2) % 8);
            } else {
                assert(part[(p + 2) / 8] == w[(p + 2) / 8]);
            }
        }
    }
    assert(kept =~= want);
}

/// The frame could be under one of the masks, as far as its addresses tell.
pub open spec fn some_mask_covers(
    masks: Seq<PrefixFilter>,
    addr1: Seq<u8>,
    addr2: Seq<u8>,
    addr3: Option<Seq<u8>>,
) -> bool {
    exists|i: int|
        0 <= i < masks.len() && tier0::accepts(
            tier0::filter_bits(frame_octets(addr1, addr2, addr3)),
            testable(#[trigger] masks[i]@, addr3 is Some),
        )
}

/// Tier 0's answer. A frame without a group address, or to everyone, carries no
/// filter and passes. The baseline passes a frame without a name.
pub open spec fn tier0_passes(
    filter: RxFilter,
    addr1: Option<Seq<u8>>,
    addr2: Option<Seq<u8>>,
    addr3: Option<Seq<u8>>,
    named: bool,
    nic_serves: bool,
) -> bool {
    match addr1 {
        None => true,
        Some(a1) => a1 == BROADCAST@ || match filter {
            RxFilter::Open => true,
            RxFilter::Bloom(masks) => match addr2 {
                None => true,
                Some(a2) => some_mask_covers(masks@, a1, a2, addr3),
            },
            RxFilter::NdnNic => named ==> nic_serves,
        },
    }
}

/// A frame with half of its filter missing is taken without asking Tier 1.
pub open spec fn half_addressed(
    filter: RxFilter,
    addr1: Option<Seq<u8>>,
    addr2: Option<Seq<u8>>,
) -> bool {
    filter is Bloom && addr2 is None && (addr1 matches Some(a) ==> a != BROADCAST@) && addr1 is Some
}

/// What became of a frame at the name gate.
#[derive(Debug, Clone, Copy, PartialEq, Eq, Structural)]
pub enum Passage {
    /// It goes on to the engine.
    Admitted,
    /// Tier 0 dropped it.
    DroppedTier0,
    /// Tier 1 dropped it.
    DroppedTier1,
}

/// Tier-0 and optional Tier-1 admission for one face.
pub struct NameGate {
    /// The Tier-0 half.
    pub filter: RxFilter,
    /// The Tier-1 half, where this node runs one.
    pub tier1: Option<Tier1>,
    /// Frames that Tier 0 dropped.
    pub dropped_tier0: u64,
    /// Frames that Tier 1 dropped.
    pub dropped_tier1: u64,
}

impl NameGate {
    /// The Tier-1 tables are well formed.
    pub open spec fn wf(&self) -> bool {
        self.tier1 matches Some(t) ==> t.wf()
    }

    /// What becomes of a frame. Broadcast skips Tier 0 only. A frame without a
    /// name, such as a later fragment, passes Tier 1.
    pub open spec fn passage(
        &self,
        addr1: Option<Seq<u8>>,
        addr2: Option<Seq<u8>>,
        addr3: Option<Seq<u8>>,
        name: Option<Seq<u8>>,
        nic_serves: bool,
    ) -> Passage {
        if !tier0_passes(self.filter, addr1, addr2, addr3, name is Some, nic_serves) {
            Passage::DroppedTier0
        } else if half_addressed(self.filter, addr1, addr2) {
            Passage::Admitted
        } else {
            match (self.tier1, name) {
                (Some(t), Some(n)) => {
                    let v = t.verdict(n);
                    if !v.fib && !v.pit && !v.cs {
                        Passage::DroppedTier1
                    } else {
                        Passage::Admitted
                    }
                },
                _ => Passage::Admitted,
            }
        }
    }

    /// A gate that admits everything.
    pub fn open() -> (g: Self)
        ensures
            g.wf(),
            g.filter is Open,
            g.tier1 is None,
            g.dropped_tier0 == 0,
            g.dropped_tier1 == 0,
    {
        Self::new(RxFilter::Open, None)
    }

    /// A gate with these two halves and nothing dropped yet.
    pub fn new(filter: RxFilter, tier1: Option<Tier1>) -> (g: Self)
        requires
            tier1 matches Some(t) ==> t.wf(),
        ensures
            g.wf(),
            g.filter == filter,
            g.tier1 == tier1,
            g.dropped_tier0 == 0,
            g.dropped_tier1 == 0,
    {
        NameGate { filter, tier1, dropped_tier0: 0, dropped_tier1: 0 }
    }

    /// The Tier-0 half.
    pub fn filter(&self) -> (f: &RxFilter)
        ensures
            *f == self.filter,
    {
        &self.filter
    }

    /// The Tier-1 half, where there is one.
    pub fn tier1(&self) -> (t: Option<&Tier1>)
        ensures
            t is Some == self.tier1 is Some,
            t matches Some(x) ==> self.tier1 == Some(*x),
    {
        match &self.tier1 {
            Some(t) => Some(t),
            None => None,
        }
    }

    /// Frames that Tier 0 dropped.
    pub fn dropped_tier0(&self) -> (n: u64)
        ensures
            n == self.dropped_tier0,
    {
        self.dropped_tier0
    }

    /// Frames that Tier 1 dropped.
    pub fn dropped_tier1(&self) -> (n: u64)
        ensures
            n == self.dropped_tier1,
    {
        self.dropped_tier1
    }

    /// Does this frame pass? `name` is the frame's name in `/`-joined form, where
    /// it has one, and `nic_serves` is what the baseline says of that name; only
    /// the tiers that parse look at them. Drops are counted.
    pub fn admits(
        &mut self,
        addr1: Option<[u8; 6]>,
        addr2: Option<[u8; 6]>,
        addr3: Option<[u8; 6]>,
        name: Option<&[u8]>,
        nic_serves: bool,
    ) -> (r: bool)
        requires
            old(self).wf(),
        ensures
            final(self).wf(),
            final(self).filter == old(self).filter,
            final(self).tier1 == old(self).tier1,
            ({
                let p = old(self).passage(
                    addr_view(addr1),
                    addr_view(addr2),
                    addr_view(addr3),
                    match name {
                        Some(n) => Some(n@),
                        None => None,
                    },
                    nic_serves,
                );
                &&& r == (p is Admitted)
                &&& final(self).dropped_tier0 == (if p is DroppedTier0 {
                    old(self).dropped_tier0.wrapping_add(1)
                } else {
                    old(self).dropped_tier0
                })
                &&& final(self).dropped_tier1 == (if p is DroppedTier1 {
                    old(self).dropped_tier1.wrapping_add(1)
                } else {
                    old(self).dropped_tier1
                })
            }),
    {
        if let Some(a1) = addr1 {
            if !same_address(&a1, &BROADCAST) {
                match &self.filter {
                    RxFilter::Open => {},
                    RxFilter::Bloom(masks) => {
                        match addr2 {
                            None => {
                                return true;
                            },
                            Some(a2) => {
                                if !any_mask(masks, &a1, &a2, addr3) {
                                    self.dropped_tier0 = self.dropped_tier0.wrapping_add(1);
                                    return false;
                                }
                            },
                        }
                    },
                    RxFilter::NdnNic => {
                        if name.is_some() && !nic_serves {
                            self.dropped_tier0 = self.dropped_tier0.wrapping_add(1);
                            return false;
                        }
                    },
                }
            }
        }
        if let Some(n) = name {
            let miss: bool = match &self.tier1 {
                Some(t) => t.lookup(n).is_miss(),
                None => false,
            };
            if miss {
                self.dropped_tier1 = self.dropped_tier1.wrapping_add(1);
                return false;
            }
        }
        true
    }
}

/// Could the frame be under one of the masks?
fn any_mask(
    masks: &Vec<PrefixFilter>,
    a1: &[u8; 6],
    a2: &[u8; 6],
    a3: Option<[u8; 6]>,
) -> (r: bool)
    ensures
        r == some_mask_covers(masks@, a1@, a2@, addr_view(a3)),
{
    let frame = PrefixFilter::from_wire(filter_octets(a1, a2, a3));
    let mut i: usize = 0;
    while i < masks.len()
        invariant
            i <= masks.len(),
            frame@ == tier0::filter_bits(frame_octets(a1@, a2@, addr_view(a3))),
            forall|j: int|
                0 <= j < i ==> !tier0::accepts(
                    frame@,
                    testable(#[trigger] masks@[j]@, addr_view(a3) is Some),
                ),
        decreases masks.len() - i,
    {
        let m: PrefixFilter = if a3.is_some() { masks[i] } else { without_third(&masks[i]) };
        assert(m@ == testable(masks@[i as int]@, addr_view(a3) is Some));
        if frame.may_match(&m) {
            return true;
        }
        i = i + 1;
    }
    false
}

impl Default for NameGate {
    fn default() -> (g: Self)
        ensures
            g.wf(),
            g.filter is Open,
            g.tier1 is None,
            g.dropped_tier0 == 0,
            g.dropped_tier1 == 0,
    {
        Self::open()
    }
}

/// An open gate without Tier 1 admits every frame.
pub proof fn law_open_gate_admits_everything(
    g: NameGate,
    addr1: Option<Seq<u8>>,
    addr2: Option<Seq<u8>>,
    addr3: Option<Seq<u8>>,
    name: Option<Seq<u8>>,
    nic_serves: bool,
)
    requires
        g.filter is Open,
        g.tier1 is None,
    ensures
        g.passage(addr1, addr2, addr3, name, nic_serves) is Admitted,
{
}

/// Broadcast skips Tier 0 and never Tier 1: a broadcast frame whose name misses
/// all three tables is dropped, and any other broadcast frame passes.
pub proof fn law_broadcast_still_meets_tier1(
    g: NameGate,
    addr2: Option<Seq<u8>>,
    addr3: Option<Seq<u8>>,
    name: Seq<u8>,
    nic_serves: bool,
)
    ensures
        g.passage(Some(BROADCAST@), addr2, addr3, Some(name), nic_serves) is DroppedTier1 == (
        g.tier1 matches Some(t) && t.verdict(name) == (tier1::Verdict {
            fib: false,
            pit: false,
            cs: false,
        })),
        !(g.passage(Some(BROADCAST@), addr2, addr3, Some(name), nic_serves) is DroppedTier0),
{
}

/// A frame without a name, such as a fragment after the first, is never dropped
/// by Tier 1 nor by the baseline.
pub proof fn law_nameless_frames_pass_the_parsing_tiers(
    g: NameGate,
    addr1: Option<Seq<u8>>,
    addr2: Option<Seq<u8>>,
    addr3: Option<Seq<u8>>,
    nic_serves: bool,
)
    ensures
        !(g.passage(addr1, addr2, addr3, None, nic_serves) is DroppedTier1),
        g.filter is NdnNic ==> g.passage(addr1, addr2, addr3, None, nic_serves) is Admitted,
{
}

/// Tier 1 judges whatever Tier 0 passes: a frame with a name and both of its first
/// two addresses that is not dropped by Tier 0 is dropped by Tier 1 exactly where its
/// name misses all three tables, whether it is addressed by a filter or to everyone.
pub proof fn law_tier1_judges_what_tier0_passes(
    g: NameGate,
    t: Tier1,
    addr1: Seq<u8>,
    addr2: Seq<u8>,
    addr3: Option<Seq<u8>>,
    name: Seq<u8>,
    nic_serves: bool,
)
    requires
        g.tier1 == Some(t),
    ensures
        ({
            let p = g.passage(Some(addr1), Some(addr2), addr3, Some(name), nic_serves);
            let v = t.verdict(name);
            &&& p is DroppedTier0 || (p is DroppedTier1 <==> !v.fib && !v.pit && !v.cs)
            &&& p is DroppedTier0 || (p is Admitted <==> v.fib || v.pit || v.cs)
        }),
{
}

/// The same holds of a frame without its second or its first address, unless a mask
/// list is left without half of a filter.
pub proof fn law_tier1_judges_frames_without_addresses(
    g: NameGate,
    t: Tier1,
    addr1: Option<Seq<u8>>,
    addr2: Option<Seq<u8>>,
    addr3: Option<Seq<u8>>,
    name: Seq<u8>,
    nic_serves: bool,
)
    requires
        g.tier1 == Some(t),
        !(g.filter is Bloom) || addr1 is None || addr1 == Some(BROADCAST@),
    ensures
        ({
            let p = g.passage(addr1, addr2, addr3, Some(name), nic_serves);
            let v = t.verdict(name);
            p is DroppedTier0 || (p is DroppedTier1 <==> !v.fib && !v.pit && !v.cs)
        }),
{
}

/// Without Tier 1, or without a name, whatever Tier 0 passes is admitted; and a frame
/// that lost its second address under a mask list is never asked about its name.
pub proof fn law_tier1_needs_tables_and_a_name(
    g: NameGate,
    addr1: Option<Seq<u8>>,
    addr2: Option<Seq<u8>>,
    addr3: Option<Seq<u8>>,
    name: Option<Seq<u8>>,
    nic_serves: bool,
)
    ensures
        g.passage(addr1, addr2, addr3, name, nic_serves) is DroppedTier1 ==> g.tier1 is Some && name
            is Some && (!(g.filter is Bloom) || addr1 is None || addr1 == Some(BROADCAST@) || addr2
            is Some),
{
}

/// A frame that a mask fits passes Tier 0: it is no fuller than a frame may be, and it
/// has every bit of the mask. The frame's octets are its first two addresses and the
/// first four octets of the third; bits that ride in a third address that was not
/// captured are not asked for.
pub proof fn law_a_fitting_mask_passes_the_frame(
    g: NameGate,
    masks: Vec<PrefixFilter>,
    addr1: Seq<u8>,
    addr2: Seq<u8>,
    addr3: Option<Seq<u8>>,
    name: Option<Seq<u8>>,
    nic_serves: bool,
    i: int,
)
    requires
        g.filter == RxFilter::Bloom(masks),
        0 <= i < masks@.len(),
        ({
            let third = if addr3 is Some {
                addr3->0.take(4)
            } else {
                seq![0u8, 0u8, 0u8, 0u8]
            };
            let frame = tier0::filter_bits(addr1 + addr2 + third);
            frame.len() <= 64 && forall|p: int| #[trigger]
                masks@[i]@.contains(p) && (addr3 is Some || p < 94) ==> frame.contains(p)
        }),
    ensures
        !(g.passage(Some(addr1), Some(addr2), addr3, name, nic_serves) is DroppedTier0),
{
    lemma_third_octets(addr3);
    let frame = tier0::filter_bits(frame_octets(addr1, addr2, addr3));
    let asked = testable(masks@[i]@, addr3 is Some);
    assert forall|p: int| asked.contains(p) implies frame.contains(p) by {
        assert(masks@[i]@.contains(p));
    }
    assert(tier0::accepts(frame, testable(masks@[i]@, addr3 is Some)));
}

/// A frame that passes the masks of Tier 0, and is not to everyone, is fitted by one of
/// them: the one at the index that this gives.
pub proof fn law_what_passes_the_masks_fits_one(
    g: NameGate,
    masks: Vec<PrefixFilter>,
    addr1: Seq<u8>,
    addr2: Seq<u8>,
    addr3: Option<Seq<u8>>,
    name: Option<Seq<u8>>,
    nic_serves: bool,
) -> (i: int)
    requires
        g.filter == RxFilter::Bloom(masks),
        addr1 != seq![0xffu8, 0xffu8, 0xffu8, 0xffu8, 0xffu8, 0xffu8],
        !(g.passage(Some(addr1), Some(addr2), addr3, name, nic_serves) is DroppedTier0),
    ensures
        0 <= i < masks@.len(),
        ({
            let third = if addr3 is Some {
                addr3->0.take(4)
            } else {
                seq![0u8, 0u8, 0u8, 0u8]
            };
            let frame = tier0::filter_bits(addr1 + addr2 + third);
            frame.len() <= 64 && forall|p: int| #[trigger]
                masks@[i]@.contains(p) && (addr3 is Some || p < 94) ==> frame.contains(p)
        }),
{
    lemma_third_octets(addr3);
    assert(BROADCAST@ =~= seq![0xffu8, 0xffu8, 0xffu8, 0xffu8, 0xffu8, 0xffu8]);
    let frame = tier0::filter_bits(frame_octets(addr1, addr2, addr3));
    let i = choose|i: int|
        0 <= i < masks@.len() && tier0::accepts(
            frame,
            testable(#[trigger] masks@[i]@, addr3 is Some),
        );
    let asked = testable(masks@[i]@, addr3 is Some);
    assert forall|p: int| #[trigger]
        masks@[i]@.contains(p) && (addr3 is Some || p < 94) implies frame.contains(p) by {
        assert(asked.contains(p));
    }
    i
}

proof fn lemma_third_octets(addr3: Option<Seq<u8>>)
    ensures
        (if addr3 is Some {
            addr3->0.take(4)
        } else {
            seq![0u8, 0u8, 0u8, 0u8]
        }) == (match addr3 {
            Some(a) => a.take(4),
            None => Seq::new(4, |i: int| 0u8),
        }),
{
    assert(seq![0u8, 0u8, 0u8, 0u8] =~= Seq::new(4, |i: int| 0u8));
}

/// Tier 0 never drops a frame without a group address or to everyone, nor one that
/// lost its second address under a mask list; an open Tier 0 drops nothing.
pub proof fn law_tier0_drops_no_unfiltered_frame(
    g: NameGate,
    addr1: Option<Seq<u8>>,
    addr2: Option<Seq<u8>>,
    addr3: Option<Seq<u8>>,
    name: Option<Seq<u8>>,
    nic_serves: bool,
)
    ensures
        g.passage(addr1, addr2, addr3, name, nic_serves) is DroppedTier0 ==> addr1 is Some
            && addr1->0 != BROADCAST@ && !(g.filter is Open) && (g.filter is Bloom ==> addr2 is Some),
{
}

/// The baseline drops a group-addressed frame exactly where it has a name that the
/// baseline does not serve.
pub proof fn law_the_baseline_drops_by_name(
    g: NameGate,
    addr1: Seq<u8>,
    addr2: Option<Seq<u8>>,
    addr3: Option<Seq<u8>>,
    name: Option<Seq<u8>>,
    nic_serves: bool,
)
    requires
        g.filter is NdnNic,
        addr1 != BROADCAST@,
    ensures
        g.passage(Some(addr1), addr2, addr3, name, nic_serves) is DroppedTier0 <==> name is Some
            && !nic_serves,
        g.tier1 is None && (name is None || nic_serves) ==> g.passage(
            Some(addr1),
            addr2,
            addr3,
            name,
            nic_serves,
        ) is Admitted,
{
}

/// An address is taken as it was captured, and counts as missing only where it is.
pub proof fn law_addresses_are_taken_as_captured(a: [u8; 6])
    ensures
        addr_view(Some(a)) == Some(a@),
        addr_view(None) is None,
{
}

/// A frame's sixteen filter octets are its first two addresses and the first four octets
/// of the third, which read zero where it was not captured.
pub proof fn law_the_filter_octets_of_a_frame(
    addr1: Seq<u8>,
    addr2: Seq<u8>,
    addr3: Seq<u8>,
    i: int,
)
    requires
        addr1.len() == 6,
        addr2.len() == 6,
        addr3.len() == 6,
        0 <= i < 16,
    ensures
        frame_octets(addr1, addr2, Some(addr3)).len() == 16,
        frame_octets(addr1, addr2, None).len() == 16,
        i < 6 ==> frame_octets(addr1, addr2, Some(addr3))[i] == addr1[i] && frame_octets(
            addr1,
            addr2,
            None,
        )[i] == addr1[i],
        6 <= i < 12 ==> frame_octets(addr1, addr2, Some(addr3))[i] == addr2[i - 6] && frame_octets(
            addr1,
            addr2,
            None,
        )[i] == addr2[i - 6],
        i >= 12 ==> frame_octets(addr1, addr2, Some(addr3))[i] == addr3[i - 12] && frame_octets(
            addr1,
            addr2,
            None,
        )[i] == 0,
{
}

/// A gate is well formed exactly where its tables are.
pub proof fn law_the_form_of_a_gate(g: NameGate)
    ensures
        g.tier1 is None ==> g.wf(),
        g.tier1 matches Some(t) ==> (g.wf() <==> t.wf()),
{
}

} // verus!
