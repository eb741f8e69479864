//! The clock that slot boundaries are read from, and the beacon that carries it.

use vstd::prelude::*;

use crate::octets;

verus! {

/// Which clock feeds the slot epoch.
#[derive(Debug, Clone, Copy, PartialEq, Eq, Structural)]
pub enum ClockSource {
    /// The wall clock, in common view to about a millisecond.
    Wall,
    /// The radio's own hardware clock.
    Hardware,
    /// The clock that beacons discipline, in common view without infrastructure.
    CommonView,
}

impl ClockSource {
    /// The guard band that this clock earns, in microseconds.
    pub open spec fn guard(self) -> int {
        match self {
            ClockSource::Wall => 1_000,
            ClockSource::CommonView => 200,
            ClockSource::Hardware => 10,
        }
    }

    /// The slot guard band that this clock earns, in microseconds: how far two
    /// nodes can differ about a slot boundary, with margin. It follows from the
    /// configured source alone, so that all nodes compute the same slot map.
    pub fn guard_us(self) -> (us: u64)
        ensures
            us == self.guard(),
    {
        match self {
            ClockSource::Wall => 1_000,
            ClockSource::CommonView => 200,
            ClockSource::Hardware => 10,
        }
    }
}

/// The common-view time state at one instant.
#[derive(Debug, Clone, Copy, PartialEq, Eq, Structural)]
pub struct TimeStatus {
    /// The common-view time, in microseconds.
    pub now_us: u64,
    /// A neighbour's hardware-stamped beacon has disciplined the clock.
    pub hw_synced: bool,
    /// The hardware offset onto the mesh timeline, where there is one.
    pub offset_us: Option<i64>,
}

/// The tag that marks a time beacon. No packet starts with its first octet.
pub const TIME_BEACON_MAGIC: [u8; 3] = [0x7e, 0x54, 0x42];

/// The octets of a beacon that carries this reference time.
pub open spec fn beacon_octets(ref_us: u64) -> Seq<u8> {
    TIME_BEACON_MAGIC@ + octets::low_octets(ref_us as nat, 8)
}

/// What a received payload is as a beacon: the reference time behind the tag,
/// whatever follows it.
pub open spec fn beacon_time(payload: Seq<u8>) -> Option<nat> {
    if payload.len() >= 11 && payload.take(3) == TIME_BEACON_MAGIC@ {
        Some(octets::little_endian(payload.subrange(3, 11)))
    } else {
        None
    }
}

/// A 64-bit counter turns over here.
pub open spec fn turn() -> int {
    0x1_0000_0000_0000_0000
}

proof fn lemma_signed(x: u64)
    ensures
        x as i64 == (if x <= i64::MAX { x as int } else { x - turn() }),
{
    assert(x as i64 == (if x <= 0x7fff_ffff_ffff_ffffu64 { x as int } else {
        x - 0x1_0000_0000_0000_0000
    })) by (bit_vector);
}

proof fn lemma_unsigned(x: i64)
    ensures
        x as u64 == (if x >= 0 { x as int } else { x + turn() }),
{
    assert(x as u64 == (if x >= 0 { x as int } else { x + 0x1_0000_0000_0000_0000 })) by (bit_vector);
}

/// `offset` leads from the local stamp to the peer's, around the turn of the
/// counters where it must.
pub open spec fn leads(local: u64, offset: i64, peer: u64) -> bool {
    ||| peer == local + offset
    ||| peer == local + offset + turn()
    ||| peer == local + offset - turn()
}

/// The offset that maps the local hardware clock onto the peer's, from the two
/// stamps of one beacon.
pub fn hardware_offset_us(peer_tsf: u64, our_rxtsfl: u64) -> (offset: i64)
    ensures
        leads(our_rxtsfl, offset, peer_tsf),
{
    proof {
        lemma_signed(peer_tsf);
        lemma_signed(our_rxtsfl);
    }
    (peer_tsf as i64).wrapping_sub(our_rxtsfl as i64)
}

/// The local hardware time on the timeline that `offset` leads to.
pub fn projected_us(local: u64, offset: i64) -> (t: u64)
    ensures
        leads(local, offset, t),
{
    let t: i64 = (local as i64).wrapping_add(offset);
    proof {
        lemma_signed(local);
        lemma_unsigned(t);
    }
    t as u64
}

/// The number that a neighbour's hardware address makes, least significant octet
/// first: who it is in the election of a network reference.
pub fn reference_id(bssid: &[u8; 6]) -> (id: u64)
    ensures
        id == octets::little_endian(bssid@),
{
    octets::read_little_endian(bssid.as_slice())
}

// ---------------------------------------------------------------------------
// Laws
// ---------------------------------------------------------------------------

/// A beacon read back gives the time that was put into it.
pub proof fn law_beacon_round_trip(ref_us: u64)
    ensures
        beacon_time(beacon_octets(ref_us)) == Some(ref_us as nat),
{
    assert(octets::octet_range(8) == turn()) by {
        reveal_with_fuel(octets::octet_range, 9);
    }
    octets::lemma_octets_round_trip(ref_us as nat, 8);
    let b = beacon_octets(ref_us);
    assert(b.take(3) =~= TIME_BEACON_MAGIC@);
    assert(b.subrange(3, 11) =~= octets::low_octets(ref_us as nat, 8));
}

/// A payload that starts like an Interest, a Data or a link packet is no beacon.
pub proof fn law_packets_are_no_beacons(payload: Seq<u8>)
    requires
        payload.len() > 0,
        payload[0] == 0x05 || payload[0] == 0x06 || payload[0] == 0x64,
    ensures
        beacon_time(payload) is None,
{
    if payload.len() >= 11 {
        assert(payload.take(3)[0] != TIME_BEACON_MAGIC@[0]);
    }
}

/// Projecting the local stamp of a beacon by the offset taken from that beacon
/// gives the peer's stamp: both ends name the event alike.
pub proof fn law_projection_reaches_the_peer(local: u64, offset: i64, peer: u64, projected: u64)
    requires
        leads(local, offset, peer),
        leads(local, offset, projected),
    ensures
        projected == peer,
{
}

/// How much guard each clock earns.
pub proof fn law_better_clocks_need_less_guard()
    ensures
        ClockSource::Hardware.guard() == 10,
        ClockSource::CommonView.guard() == 200,
        ClockSource::Wall.guard() == 1_000,
{
}

/// A beacon is eleven octets long and starts with its tag.
pub proof fn law_the_form_of_a_beacon(ref_us: u64)
    ensures
        beacon_octets(ref_us).len() == 11,
        beacon_octets(ref_us)[0] == 0x7e,
        beacon_octets(ref_us)[1] == 0x54,
        beacon_octets(ref_us)[2] == 0x42,
{
    assert(octets::octet_range(8) == turn()) by {
        reveal_with_fuel(octets::octet_range, 9);
    }
    octets::lemma_octets_round_trip(ref_us as nat, 8);
}

/// A payload is a beacon exactly where it starts with the octets of one, whatever
/// follows, and then it carries that beacon's time.
pub proof fn law_only_a_beacon_is_read_as_one(payload: Seq<u8>, ref_us: u64)
    ensures
        beacon_time(payload) == Some(ref_us as nat) <==> payload.len() >= 11 && payload.take(11)
            == beacon_octets(ref_us),
        beacon_time(payload) is Some ==> beacon_time(payload)->0 <= u64::MAX,
        payload.len() < 11 ==> beacon_time(payload) is None,
{
    assert(octets::octet_range(8) == turn()) by {
        reveal_with_fuel(octets::octet_range, 9);
    }
    let b = beacon_octets(ref_us);
    octets::lemma_octets_round_trip(ref_us as nat, 8);
    if payload.len() >= 11 {
        let tail = payload.subrange(3, 11);
        octets::law_octets_round_trip(0, 8, tail);
        octets::lemma_little_endian_bound(tail);
        assert(payload.take(11) =~= payload.take(3) + tail);
        if payload.take(11) == b {
            assert(payload.take(3) =~= b.take(3));
            assert(b.take(3) =~= TIME_BEACON_MAGIC@);
            assert(tail =~= b.subrange(3, 11));
            assert(b.subrange(3, 11) =~= octets::low_octets(ref_us as nat, 8));
        }
        if beacon_time(payload) == Some(ref_us as nat) {
            assert(tail == octets::low_octets(ref_us as nat, 8));
            assert(payload.take(11) =~= b);
        }
    }
}

/// An offset leads from one stamp to another exactly where it is their difference, as
/// the counters turn.
pub proof fn law_an_offset_is_the_difference(local: u64, offset: i64, peer: u64)
    ensures
        leads(local, offset, peer) <==> (local + offset - peer) % 0x1_0000_0000_0000_0000 == 0,
{
    let d = local + offset - peer;
    let t = 0x1_0000_0000_0000_0000int;
    assert(-2 * t < d < 2 * t);
    if d % t == 0 {
        vstd::arithmetic::div_mod::lemma_fundamental_div_mod(d, t);
        let q = d / t;
        assert(d == t * q);
        assert(-2 < q < 2) by (nonlinear_arith)
            requires
                d == t * q,
                -2 * t < d < 2 * t,
                t > 0,
        ;
        assert(q == -1 || q == 0 || q == 1);
    }
}

} // verus!
