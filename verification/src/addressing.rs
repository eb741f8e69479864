//! How an outgoing frame gets its three addresses.

use std::collections::HashMap;

use vstd::prelude::*;

use crate::bits;
use crate::name_gate;
use crate::name_gate::{same_address, RxFilter, BROADCAST};
use crate::tier0;
use crate::tier0::PrefixFilter;

verus! {

broadcast use vstd::std_specs::hash::group_hash_axioms;

/// The addresses of one frame.
#[derive(Debug, Clone, Copy)]
pub struct FrameAddress {
    /// The first address: everyone, or the first six filter octets.
    pub dst: [u8; 6],
    /// The second address: the sender's nonce, or the next six filter octets.
    pub src: [u8; 6],
    /// The third address, where the filter displaced the nonce: the last four
    /// filter octets and the last two octets of the nonce.
    pub addr3: Option<[u8; 6]>,
}

/// The third address of a frame with the filter octets `w` from a sender with
/// this nonce.
pub open spec fn third_address(w: Seq<u8>, nonce: Seq<u8>) -> Seq<u8> {
    w.subrange(12, 16) + nonce.subrange(4, 6)
}

/// Addresses a frame. With a filter, the filter fills the addresses and leaves
/// room for the end of the nonce in the third; without one the frame goes to
/// everyone, from the nonce.
pub fn address_frame(filter: Option<[u8; 16]>, nonce: [u8; 6]) -> (a: FrameAddress)
    ensures
        match filter {
            Some(w) => {
                &&& a.dst@ == w@.take(6)
                &&& a.src@ == w@.subrange(6, 12)
                &&& a.addr3 is Some
                &&& a.addr3->0@ == third_address(w@, nonce@)
            },
            None => {
                &&& a.dst == BROADCAST
                &&& a.src == nonce
                &&& a.addr3 is None
            },
        },
{
    match filter {
        Some(w) => {
            let dst: [u8; 6] = [w[0], w[1], w[2], w[3], w[4], w[5]];
            let src: [u8; 6] = [w[6], w[7], w[8], w[9], w[10], w[11]];
            let third: [u8; 6] = [w[12], w[13], w[14], w[15], nonce[4], nonce[5]];
            proof {
                assert(dst@ =~= w@.take(6));
                assert(src@ =~= w@.subrange(6, 12));
                assert(third@ =~= third_address(w@, nonce@));
            }
            FrameAddress { dst, src, addr3: Some(third) }
        },
        None => FrameAddress { dst: BROADCAST, src: nonce, addr3: None },
    }
}

/// The sender that a frame names which a filter addresses: the nonce octets of the
/// third address where there is one, with the filter octets cleared, else the second address.
pub open spec fn sender_of(addr2: Option<Seq<u8>>, addr3: Option<Seq<u8>>) -> Option<Seq<u8>> {
    match addr3 {
        Some(a) => Some(Seq::new(4, |i: int| 0u8) + a.subrange(4, 6)),
        None => addr2,
    }
}

/// The sender of a received frame. Only a frame that a filter addresses carries nonce
/// octets in its third address; one to everyone, or without a group, names its sender
/// in the second.
pub open spec fn frame_sender(
    group: Option<Seq<u8>>,
    addr2: Option<Seq<u8>>,
    addr3: Option<Seq<u8>>,
) -> Option<Seq<u8>> {
    if group is Some && group->0 != BROADCAST@ {
        sender_of(addr2, addr3)
    } else {
        addr2
    }
}

/// Which sender does a received frame name?
pub fn sender_tag(
    group: Option<[u8; 6]>,
    addr2: Option<[u8; 6]>,
    addr3: Option<[u8; 6]>,
) -> (tag: Option<[u8; 6]>)
    ensures
        name_gate::addr_view(tag) == frame_sender(
            name_gate::addr_view(group),
            name_gate::addr_view(addr2),
            name_gate::addr_view(addr3),
        ),
{
    let filtered: bool = match group {
        Some(g) => !same_address(&g, &BROADCAST),
        None => false,
    };
    if !filtered {
        return addr2;
    }
    match addr3 {
        Some(a) => {
            let t: [u8; 6] = [0, 0, 0, 0, a[4], a[5]];
            assert(t@ =~= Seq::new(4, |i: int| 0u8) + a@.subrange(4, 6));
            Some(t)
        },
        None => addr2,
    }
}

/// `w` are the filter octets of the object `name` as they go on air.
pub open spec fn is_object_wire(w: Seq<u8>, key: Seq<u8>, name: Seq<u8>) -> bool {
    &&& w.len() == 16
    &&& tier0::filter_bits(w) == tier0::name_bits(key, name)
    &&& w[0] & tier0::RESERVED_MASK0 == 0b0000_0011
}

/// The filter octets for an object with this name, where it has one.
pub fn bloom_wire_for_name(key: &[u8; 16], name: Option<&[u8]>) -> (w: Option<[u8; 16]>)
    ensures
        w is Some == name is Some,
        w is Some ==> is_object_wire(w->0@, key@, name->0@),
{
    match name {
        Some(n) => {
            let mut f = PrefixFilter::new();
            f.insert_name(key, n);
            assert(f@ =~= tier0::name_bits(key@, n@));
            Some(f.to_wire())
        },
        None => None,
    }
}

/// The masks of a receiver that registered these prefixes.
pub fn bloom_masks_for(key: &[u8; 16], prefixes: &Vec<Vec<u8>>) -> (masks: Vec<PrefixFilter>)
    ensures
        masks.len() == prefixes.len(),
        forall|i: int|
            0 <= i < masks.len() ==> (#[trigger] masks[i])@ == tier0::mask_bits(
                key@,
                prefixes[i]@,
            ),
{
    let mut masks: Vec<PrefixFilter> = Vec::new();
    let mut i: usize = 0;
    while i < prefixes.len()
        invariant
            i <= prefixes.len(),
            masks.len() == i,
            forall|j: int|
                0 <= j < i ==> (#[trigger] masks[j])@ == tier0::mask_bits(key@, prefixes[j]@),
        decreases prefixes.len() - i,
    {
        masks.push(PrefixFilter::mask_for(key, prefixes[i].as_slice()));
        i = i + 1;
    }
    masks
}

/// Where a link-layer fragment stands in its object.
#[derive(Debug, Clone, Copy, PartialEq, Eq, Structural)]
pub struct Fragment {
    /// The fragment's sequence number.
    pub sequence: u64,
    /// Its index in the object.
    pub frag_index: u64,
    /// How many fragments the object has.
    pub frag_count: u64,
}

impl Fragment {
    /// The sequence number of the object's first fragment.
    pub open spec fn base(&self) -> u64 {
        self.sequence.wrapping_sub(self.frag_index)
    }

    /// No fragment of the object follows this one.
    pub open spec fn is_last(&self) -> bool {
        self.frag_index + 1 >= self.frag_count
    }
}

/// In-flight fragmented objects that are kept at once.
pub const TIER0_CACHE_CAP: usize = 4096;

/// Addresses whole objects, fragments included: only the first fragment carries
/// the name, so its filter is kept for the others until the last went out.
pub struct Tier0Addresser {
    /// The group key.
    pub key: [u8; 16],
    /// The filter octets of each object in flight, by the sequence number of its
    /// first fragment.
    pub cache: HashMap<u64, [u8; 16]>,
}

impl Tier0Addresser {
    /// The cache keeps to its cap.
    pub open spec fn wf(&self) -> bool {
        &&& self.cache@.dom().finite()
        &&& self.cache@.dom().len() <= TIER0_CACHE_CAP
    }

    /// An addresser with nothing in flight.
    pub fn new(key: [u8; 16]) -> (a: Self)
        ensures
            a.wf(),
            a.key == key,
            a.cache@ == Map::<u64, [u8; 16]>::empty(),
    {
        Tier0Addresser { key, cache: HashMap::new() }
    }

    /// How many objects in flight there are.
    pub fn in_flight(&self) -> (n: usize)
        ensures
            n == self.cache@.dom().len(),
    {
        self.cache.len()
    }

    /// Some object in flight.
    fn any_in_flight(&self) -> (k: Option<u64>)
        ensures
            k is Some ==> self.cache@.dom().contains(k->0),
            k is None ==> self.cache@.dom().len() == 0,
    {
        for k in it: self.cache.keys()
            invariant
                it.index() == 0,
        {
            assert(self.cache@.dom().contains(*k)) by {
                assert(it.seq().unref().to_set() == self.cache@.dom());
                assert(it.seq().unref()[0] == *k);
            }
            return Some(*k);
        }
        None
    }

    /// The filter octets for an outgoing frame, or `None` to send it to everyone.
    /// A frame that is no fragment is addressed by its own name. The first
    /// fragment of an object is too, and its filter is kept unless it is also the
    /// last; at the cap some other object gives way. A later fragment takes what
    /// was kept, and the last one releases it.
    pub fn wire_for(&mut self, frag: Option<Fragment>, name: Option<&[u8]>) -> (w: Option<[u8; 16]>)
        requires
            old(self).wf(),
            frag matches Some(h) ==> h.frag_index < u64::MAX,
        ensures
            final(self).wf(),
            final(self).key == old(self).key,
            match frag {
                None => {
                    &&& final(self).cache@ == old(self).cache@
                    &&& w is Some == name is Some
                    &&& w is Some ==> is_object_wire(w->0@, old(self).key@, name->0@)
                },
                Some(h) => if h.frag_index == 0 {
                    &&& w is Some == name is Some
                    &&& w is Some ==> is_object_wire(w->0@, old(self).key@, name->0@)
                    &&& w is None || h.is_last() ==> final(self).cache@ == old(self).cache@
                    &&& w is Some && !h.is_last() ==> if old(self).cache@.dom().len()
                        < TIER0_CACHE_CAP {
                        final(self).cache@ == old(self).cache@.insert(h.base(), w->0)
                    } else {
                        exists|victim: u64| #[trigger]
                            old(self).cache@.dom().contains(victim) && final(self).cache@
                                == old(self).cache@.remove(victim).insert(h.base(), w->0)
                    }
                } else {
                    &&& w == (if old(self).cache@.dom().contains(h.base()) {
                        Some(old(self).cache@[h.base()])
                    } else {
                        None
                    })
                    &&& final(self).cache@ == (if h.is_last() {
                        old(self).cache@.remove(h.base())
                    } else {
                        old(self).cache@
                    })
                },
            },
    {
        let h = match frag {
            None => {
                return bloom_wire_for_name(&self.key, name);
            },
            Some(h) => h,
        };
        let base: u64 = h.sequence.wrapping_sub(h.frag_index);
        let last: bool = h.frag_index + 1 >= h.frag_count;
        if h.frag_index == 0 {
            let w: [u8; 16] = match bloom_wire_for_name(&self.key, name) {
                None => {
                    return None;
                },
                Some(w) => w,
            };
            if !last {
                if self.cache.len() >= TIER0_CACHE_CAP {
                    if let Some(victim) = self.any_in_flight() {
                        self.cache.remove(&victim);
                    }
                }
                self.cache.insert(base, w);
            }
            return Some(w);
        }
        if last {
            self.cache.remove(&base)
        } else {
            match self.cache.get(&base) {
                Some(w) => Some(*w),
                None => None,
            }
        }
    }
}

// ---------------------------------------------------------------------------
// Laws
// ---------------------------------------------------------------------------

/// All fragments of an object lead to the sequence number of its first one.
pub proof fn law_fragments_share_a_base(first: u64, index: u64, count: u64)
    ensures
        (Fragment {
            sequence: first.wrapping_add(index),
            frag_index: index,
            frag_count: count,
        }).base() == first,
{
}

/// Later fragments are addressed as the first: what was kept for the first fragment of
/// an object is what any other fragment of it finds, and the fragments of other
/// objects leave it alone.
pub proof fn law_fragments_follow_the_first(
    before: Map<u64, [u8; 16]>,
    first: Fragment,
    later: Fragment,
    other: Fragment,
    w: [u8; 16],
    x: [u8; 16],
)
    requires
        later.base() == first.base(),
        other.base() != first.base(),
    ensures
        ({
            let kept = before.insert(first.base(), w);
            &&& kept.dom().contains(later.base()) && kept[later.base()] == w
            &&& kept.insert(other.base(), x).dom().contains(later.base())
            &&& kept.insert(other.base(), x)[later.base()] == w
            &&& kept.remove(other.base()).dom().contains(later.base())
            &&& kept.remove(other.base())[later.base()] == w
        }),
{
}

/// A frame addressed by its name reaches every receiver that registered a prefix
/// of the name, whether or not the receiver captured the third address.
pub proof fn law_addressed_frame_reaches_its_receivers(
    key: Seq<u8>,
    name: Seq<u8>,
    prefix: Seq<u8>,
    w: Seq<u8>,
    nonce: Seq<u8>,
    masks: Vec<PrefixFilter>,
    i: int,
    nic_serves: bool,
)
    requires
        tier0::is_under(name, prefix),
        is_object_wire(w, key, name),
        nonce.len() == 6,
        0 <= i < masks.len(),
        masks[i]@ == tier0::mask_bits(key, prefix),
    ensures
        name_gate::tier0_passes(
            RxFilter::Bloom(masks),
            Some(w.take(6)),
            Some(w.subrange(6, 12)),
            Some(third_address(w, nonce)),
            true,
            nic_serves,
        ),
        name_gate::tier0_passes(
            RxFilter::Bloom(masks),
            Some(w.take(6)),
            Some(w.subrange(6, 12)),
            None,
            true,
            nic_serves,
        ),
{
    tier0::law_no_false_negative(key, name, prefix);
    tier0::law_one_name_stays_under_the_cap(key, name);
    let full = name_gate::frame_octets(
        w.take(6),
        w.subrange(6, 12),
        Some(third_address(w, nonce)),
    );
    assert(full =~= w);
    let all = tier0::filter_bits(w);
    name_gate::lemma_octets_without_third(w);
    name_gate::lemma_testable_is_accepted(all, masks[i]@);
    lemma_one_mask_suffices(
        masks,
        i,
        w.take(6),
        w.subrange(6, 12),
        Some(third_address(w, nonce)),
        nic_serves,
    );
    lemma_one_mask_suffices(masks, i, w.take(6), w.subrange(6, 12), None, nic_serves);
}

proof fn lemma_one_mask_suffices(
    masks: Vec<PrefixFilter>,
    i: int,
    a1: Seq<u8>,
    a2: Seq<u8>,
    a3: Option<Seq<u8>>,
    nic_serves: bool,
)
    requires
        0 <= i < masks.len(),
        tier0::accepts(
            tier0::filter_bits(name_gate::frame_octets(a1, a2, a3)),
            name_gate::testable(masks[i]@, a3 is Some),
        ),
    ensures
        name_gate::tier0_passes(
            RxFilter::Bloom(masks),
            Some(a1),
            Some(a2),
            a3,
            true,
            nic_serves,
        ),
{
    assert(name_gate::some_mask_covers(masks@, a1, a2, a3)) by {
        assert(masks@[i]@ == masks[i]@);
    }
}

/// A frame addressed by its name is never taken for one to everyone: the filter of
/// one name has too few bits to fill the first address.
pub proof fn law_named_frames_are_not_broadcast(key: Seq<u8>, name: Seq<u8>, w: Seq<u8>)
    requires
        is_object_wire(w, key, name),
    ensures
        w.take(6) != BROADCAST@,
{
    tier0::law_one_name_stays_under_the_cap(key, name);
    if w.take(6) == BROADCAST@ {
        let full = vstd::set_lib::set_int_range(0, 46);
        vstd::set_lib::lemma_int_range(0, 46);
        assert(full.subset_of(tier0::name_bits(key, name))) by {
            assert forall|p: int| full.contains(p) implies tier0::filter_bits(w).contains(p) by {
                let k = (p + 2) / 8;
                assert(w.take(6)[k] == BROADCAST@[k]);
                bits::lemma_bit_of_full((p + 2) % 8);
            }
        }
        vstd::set_lib::lemma_len_subset(full, tier0::name_bits(key, name));
    }
}

/// Two objects from one sender name the same sender, whatever their names are:
/// the filter octets of the third address take no part.
pub proof fn law_sender_is_the_same_for_every_name(
    key: Seq<u8>,
    name1: Seq<u8>,
    w1: Seq<u8>,
    name2: Seq<u8>,
    w2: Seq<u8>,
    nonce: Seq<u8>,
)
    requires
        is_object_wire(w1, key, name1),
        is_object_wire(w2, key, name2),
        nonce.len() == 6,
    ensures
        frame_sender(
            Some(w1.take(6)),
            Some(w1.subrange(6, 12)),
            Some(third_address(w1, nonce)),
        ) == frame_sender(
            Some(w2.take(6)),
            Some(w2.subrange(6, 12)),
            Some(third_address(w2, nonce)),
        ),
{
    law_named_frames_are_not_broadcast(key, name1, w1);
    law_named_frames_are_not_broadcast(key, name2, w2);
    assert(third_address(w1, nonce).subrange(4, 6) =~= nonce.subrange(4, 6));
    assert(third_address(w2, nonce).subrange(4, 6) =~= nonce.subrange(4, 6));
}

/// A frame to everyone names its sender in full, whatever its third address holds.
pub proof fn law_broadcast_names_its_sender(nonce: Seq<u8>, addr3: Option<Seq<u8>>)
    ensures
        frame_sender(Some(BROADCAST@), Some(nonce), addr3) == Some(nonce),
        frame_sender(None, Some(nonce), addr3) == Some(nonce),
{
}

/// The third address holds the last four filter octets and the last two of the nonce.
pub proof fn law_the_third_address(w: Seq<u8>, nonce: Seq<u8>, i: int)
    requires
        w.len() == 16,
        nonce.len() == 6,
    ensures
        third_address(w, nonce).len() == 6,
        0 <= i < 4 ==> third_address(w, nonce)[i] == w[12 + i],
        4 <= i < 6 ==> third_address(w, nonce)[i] == nonce[i],
{
}

/// A filtered frame with its third address names its sender by the last two octets of
/// that, behind four zeros; without it, by the second address as it is.
pub proof fn law_a_filtered_frame_names_its_sender(
    group: Seq<u8>,
    addr2: Option<Seq<u8>>,
    addr3: Seq<u8>,
)
    requires
        group != BROADCAST@,
        addr3.len() == 6,
    ensures
        frame_sender(Some(group), addr2, Some(addr3)) == Some(
            seq![0u8, 0u8, 0u8, 0u8, addr3[4], addr3[5]],
        ),
        frame_sender(Some(group), addr2, None) == addr2,
{
    assert(Seq::new(4, |i: int| 0u8) + addr3.subrange(4, 6) =~= seq![
        0u8,
        0u8,
        0u8,
        0u8,
        addr3[4],
        addr3[5],
    ]);
}

/// The octets of a named object carry the bits of the prefixes that its name is inserted
/// by, all of them and no others, and read as a local group address.
pub proof fn law_the_octets_of_a_named_object(w: Seq<u8>, key: Seq<u8>, name: Seq<u8>, p: int)
    requires
        is_object_wire(w, key, name),
    ensures
        w.len() == 16,
        w[0] % 4 == 3,
        tier0::filter_bits(w).contains(p) <==> exists|i: int|
            0 <= i < tier0::prefixes(name).len() && tier0::prefix_bits(
                key,
                #[trigger] tier0::prefixes(name)[i],
            ).contains(p),
{
    let b = w[0];
    assert((b & 3u8 == 3u8) == (b % 4 == 3)) by (bit_vector);
    tier0::law_bits_of_a_name(key, name, p);
}

/// A fragment is the last of its object exactly where no index behind its own is left.
pub proof fn law_the_last_fragment(h: Fragment)
    requires
        h.frag_index < h.frag_count,
    ensures
        h.is_last() <==> h.frag_index == h.frag_count - 1,
{
}

/// A fragment with an index beyond its object's count is a last one too.
pub proof fn law_nothing_follows_a_stray_fragment(h: Fragment)
    requires
        h.frag_count <= h.frag_index,
    ensures
        h.is_last(),
{
}

/// No more objects in flight are kept than the cap allows.
pub proof fn law_the_cache_keeps_to_its_cap(a: Tier0Addresser)
    requires
        a.wf(),
    ensures
        a.cache@.dom().finite(),
        a.cache@.dom().len() <= 4096,
{
}

} // verus!
