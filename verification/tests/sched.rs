use std::collections::{HashMap, HashSet};

use ndn_face_wireless::addressing::address_frame;
use ndn_face_wireless::clock::{hardware_offset_us, projected_us, reference_id, ClockSource};
use ndn_face_wireless::groups::{GroupTable, LeaseClass};
use ndn_face_wireless::name_gate::BROADCAST;
use ndn_face_wireless::sched::{
    carries_filter, cclf_jitter_us, nonce_u64, Attribution, ClaimStep, FaceScheduler, GateMove,
    GatePhase, HoldStatus, SchedSettings, SlotReading, CCLF_SPREAD, LEARNED_GROUP_CAP,
    PRESENCE_WINDOW_US,
};
use ndn_face_wireless::sched_config::{parse_hop, parse_slot, SchedVars, SlotPlan};
use ndn_face_wireless::tier0::{PrefixFilter, FILL_CAP};
use ndn_face_wireless::tlv::name_components;

/// A slot key over name components.
fn prefix_hash(comps: &[&[u8]]) -> u64 {
    let mut h: u64 = 0xcbf2_9ce4_8422_2325;
    for c in comps {
        for b in c.iter().chain(b"/".iter()) {
            h = (h ^ *b as u64).wrapping_mul(0x0000_0100_0000_01b3);
        }
    }
    h ^= h >> 33;
    h = h.wrapping_mul(0xff51_afd7_ed55_8ccd);
    h ^ (h >> 33)
}

/// A slot map of equal slots, with every `stride`-th one reserved.
#[derive(Clone, Copy)]
struct SlotMap {
    slot_us: u64,
    slots: u64,
    stride: u64,
}

impl SlotMap {
    fn current(&self, now: u64) -> u64 {
        now / self.slot_us % self.slots
    }
    fn start(&self, now: u64) -> u64 {
        now - now % self.slot_us
    }
    fn is_reserved(&self, k: u64) -> bool {
        self.stride > 0 && k % self.stride == 0
    }
    fn owner_slot(&self, hash: u64, class: LeaseClass) -> u64 {
        let of_class: Vec<u64> = (0..self.slots)
            .filter(|k| self.stride == 0 || self.is_reserved(*k) == (class == LeaseClass::Latency))
            .collect();
        of_class[(hash % of_class.len() as u64) as usize]
    }
    fn wait_us(&self, hash: u64, class: LeaseClass, now: u64) -> u64 {
        let own = self.owner_slot(hash, class);
        let cur = self.current(now);
        if own == cur {
            return 0;
        }
        let away = (own + self.slots - cur) % self.slots;
        away * self.slot_us - now % self.slot_us
    }
    fn lease_deadline(&self, now: u64, max: u64) -> u64 {
        let mut end = self.start(now) + self.slot_us;
        let mut n = 1;
        while n < max && !self.is_reserved(self.current(end)) {
            end += self.slot_us;
            n += 1;
        }
        end
    }
    fn read(&self, hash: u64, class: LeaseClass, now: u64, air: u64, lease: u64) -> SlotReading {
        let own = self.owner_slot(hash, class);
        let remaining_us = self.slot_us - now % self.slot_us;
        SlotReading {
            now_us: now,
            slot_us: self.slot_us,
            slots: self.slots,
            current: self.current(now) as usize,
            start_us: self.start(now),
            remaining_us,
            epoch: now / self.slot_us,
            reserved: self.is_reserved(self.current(now)),
            fits: air <= remaining_us,
            home: own as usize,
            owns: own == self.current(now),
            wait_us: self.wait_us(hash, class, now),
            lease_until_us: self.lease_deadline(now, lease),
        }
    }
}

const AIR: u64 = 130;

fn settings(claimable: bool) -> SchedSettings {
    SchedSettings {
        clock_source: ClockSource::Wall,
        master: false,
        claimable,
        claim_unknown: false,
        lease_max: 1,
        node_id: u64::MAX,
    }
}

/// A claimable scheduler with a superframe of eight 3 ms slots, on channel 36.
fn mk_claim_sched() -> FaceScheduler {
    let mut s = FaceScheduler::new(settings(true), parse_slot("8:3000", 0), None);
    s.current_ch = 36;
    s
}

const EIGHT: SlotMap = SlotMap { slot_us: 3000, slots: 8, stride: 0 };

/// Runs a whole claim at `now`: begins it, lets the draw pass, and ends it.
fn try_claim(s: &mut FaceScheduler, map: &SlotMap, hash: u64, class: LeaseClass, now: u64) -> bool {
    let r = map.read(hash, class, now, AIR, s.settings.lease_max);
    match s.begin_claim(hash, class, &r, AIR) {
        ClaimStep::Refused => false,
        ClaimStep::Granted => true,
        ClaimStep::Contend(_) => s.finish_claim(&r),
    }
}

fn name_tlv(comps: &[&[u8]]) -> Vec<u8> {
    let mut inner = Vec::new();
    for c in comps {
        inner.push(0x08);
        inner.push(c.len() as u8);
        inner.extend_from_slice(c);
    }
    let mut t = vec![0x07, inner.len() as u8];
    t.extend_from_slice(&inner);
    t
}

/// A received broadcast frame of this name, and the key of its first component.
fn hear(s: &mut FaceScheduler, map: &SlotMap, name: &str, nonce: Option<[u8; 6]>, now: u64) -> bool {
    let first = name.split('/').find(|c| !c.is_empty()).unwrap();
    let key = prefix_hash(&[first.as_bytes()]);
    match s.observe_rx(Some(BROADCAST), nonce, None, Some(name.as_bytes()), Some(key), now) {
        Some(h) => {
            let k = map.owner_slot(h.keyed, h.class) as usize;
            s.mark_heard(k, h.nonce, now);
            true
        }
        None => false,
    }
}

#[test]
fn parses_first_component_as_the_group() {
    let name = [
        0x07, 0x0c, 0x08, 0x03, b'n', b'd', b'n', 0x08, 0x05, b'a', b'l', b'a', b'r', b'm',
    ];
    let one = name_components(&name, 1);
    assert_eq!(one, vec![b"ndn".to_vec()]);
    let two = name_components(&name, 2);
    assert_eq!(two, vec![b"ndn".to_vec(), b"alarm".to_vec()]);
}

#[test]
fn long_numbers_are_read_in_all_their_widths() {
    for len in [252usize, 253, 300, 70_000] {
        let comp = vec![b'x'; len];
        let mut inner = vec![0x08];
        let mut put = |v: &mut Vec<u8>, n: usize| {
            if n < 253 {
                v.push(n as u8);
            } else if n < 0x1_0000 {
                v.push(253);
                v.extend_from_slice(&(n as u16).to_be_bytes());
            } else {
                v.push(254);
                v.extend_from_slice(&(n as u32).to_be_bytes());
            }
        };
        put(&mut inner, len);
        inner.extend_from_slice(&comp);
        let mut name = vec![0x07];
        put(&mut name, inner.len());
        name.extend_from_slice(&inner);
        assert_eq!(name_components(&name, 4), vec![comp]);
    }
    // The widest form, and a number that breaks off.
    let mut wide = vec![0x07, 255, 0, 0, 0, 0, 0, 0, 0, 4, 0x08, 2, b'a', b'b'];
    assert_eq!(name_components(&wide, 1), vec![b"ab".to_vec()]);
    wide.truncate(6);
    assert!(name_components(&wide, 1).is_empty());
}

#[test]
fn hardware_common_view_beats_software_and_aligns_the_epoch() {
    let mk = || {
        let mut set = settings(false);
        set.clock_source = ClockSource::CommonView;
        FaceScheduler::new(set, parse_slot("8:3000", 0), None)
    };
    let mut a = mk();
    let mut b = mk();
    assert_eq!(a.common_view_now_us(1, 2, 3), 3, "the software clock before any beacon");
    assert!(!a.is_hw_synced());
    // Both hear one beacon: peer_tsf = 5_000_000 µs, in different stamp domains.
    a.ingest_common_view(hardware_offset_us(5_000_000, 1_000_000));
    b.ingest_common_view(hardware_offset_us(5_000_000, 8_000_000));
    assert_eq!(a.cv_offset_us(), Some(4_000_000));
    assert_eq!(b.cv_offset_us(), Some(-3_000_000));
    let na = projected_us(1_000_040, a.cv_offset_us().unwrap());
    let nb = projected_us(8_000_040, b.cv_offset_us().unwrap());
    assert_eq!((na, nb), (5_000_040, 5_000_040));
    assert_eq!(na / 3000, nb / 3000, "hardware common-view did not align the two nodes' epochs");
    assert_eq!(a.common_view_now_us(0, 1_000_040, 0), 5_000_040);
    let st = a.time_status(na);
    assert_eq!((st.now_us, st.hw_synced, st.offset_us), (5_000_040, true, Some(4_000_000)));
    assert_eq!(reference_id(&[0x02, 1, 2, 3, 4, 5]), 0x0504_0302_0102);
}

#[test]
fn the_wall_clock_ignores_the_disciplined_ones() {
    let s = FaceScheduler::new(settings(false), parse_slot("8:3000", 0), None);
    assert_eq!(s.common_view_now_us(11, 22, 33), 11);
    assert_eq!(ClockSource::Wall.guard_us(), 1_000);
    assert_eq!(ClockSource::CommonView.guard_us(), 200);
    assert_eq!(ClockSource::Hardware.guard_us(), 10);
}

#[test]
fn cclf_jitter_is_deterministic_and_bounded() {
    let a = prefix_hash(&[b"ndn", b"alarm"]);
    let b = prefix_hash(&[b"ndn", b"bulk"]);

    assert_eq!(cclf_jitter_us(a, 3000, 7, 200, 0), cclf_jitter_us(a, 3000, 7, 200, 0));
    for e in 0..64 {
        assert!(cclf_jitter_us(a, 3000, e, 200, 0) < 1500);
        assert!(cclf_jitter_us(b, 3000, e, 200, 0) < 1500);
    }
    assert_ne!(cclf_jitter_us(a, 3000, 7, 200, 0), cclf_jitter_us(b, 3000, 7, 200, 0));

    let names: Vec<u64> = (0..8)
        .map(|i| prefix_hash(&[b"ndn", format!("n{i}").as_bytes()]))
        .collect();
    let mut wins = HashMap::new();
    for epoch in 0..2_000u64 {
        let winner = names
            .iter()
            .min_by_key(|n| cclf_jitter_us(**n, 3000, epoch, 200, 0))
            .unwrap();
        *wins.entry(*winner).or_insert(0usize) += 1;
    }
    assert_eq!(wins.len(), names.len(), "every name must win some slots, got {wins:?}");
    let most = *wins.values().max().unwrap();
    assert!(most < 2_000 / 2, "no name may dominate the idle slots; the worst took {most}/2000");
}

#[test]
fn the_draw_has_exact_values() {
    // Epoch 0 leaves the name alone: 1000 ^ (1000 >> 32) = 1000, in a window of 1500.
    assert_eq!(cclf_jitter_us(1_000, 3_000, 0, 200, 0), 1_000);
    assert_eq!(cclf_jitter_us(1_600, 3_000, 0, 200, 0), 100);
    // One halving at most: a window of 375 would be under two frame times.
    assert_eq!(cclf_jitter_us(1_000, 3_000, 0, 200, 1), 500);
    assert_eq!(cclf_jitter_us(1_000, 3_000, 0, 200, 9), 500);
    // A draw of zero waits one microsecond.
    assert_eq!(cclf_jitter_us(1_500, 3_000, 0, 200, 0), 1);
    assert_eq!(cclf_jitter_us(7, 0, 0, 0, 0), 1);
}

#[test]
fn group_depth_changes_the_key() {
    let h1 = prefix_hash(&[&b"ndn"[..]]);
    let h2a = prefix_hash(&[&b"ndn"[..], &b"alarm"[..]]);
    let h2b = prefix_hash(&[&b"ndn"[..], &b"bulk"[..]]);
    let names = vec![b"/ndn".to_vec(), b"/ndn/alarm".to_vec(), b"/ndn/bulk".to_vec()];
    let t = GroupTable::new(&[9u8; 16], &names, &vec![h1, h2a, h2b]);
    let keyed = |n: &[u8]| t.hash_for_name(n).unwrap().0;
    assert_ne!(keyed(b"/ndn/alarm/1"), keyed(b"/ndn/bulk/1"));
    assert_ne!(keyed(b"/ndn/other"), keyed(b"/ndn/alarm/1"));
}

#[test]
fn beacon_round_trips_and_ignores_ndn() {
    for t in [0u64, 9_000_000, 0x0102_0304_0506_0708, u64::MAX] {
        let wire = FaceScheduler::build_beacon(t);
        assert_eq!(wire.len(), 11);
        assert_eq!(FaceScheduler::parse_beacon(&wire), Some(t));
        let mut longer = wire.clone();
        longer.push(0xaa);
        assert_eq!(FaceScheduler::parse_beacon(&longer), Some(t));
        assert_eq!(FaceScheduler::parse_beacon(&wire[..10]), None);
    }
    assert_eq!(FaceScheduler::parse_beacon(&[0x06, 0x0c, 0x07]), None);
    assert_eq!(FaceScheduler::parse_beacon(&[0x64, 0x00]), None);
    let b = FaceScheduler::build_beacon(0x0102_0304_0506_0708);
    assert_eq!(b, vec![0x7e, 0x54, 0x42, 8, 7, 6, 5, 4, 3, 2, 1]);
}

#[test]
fn a_hop_the_radio_cannot_serve_is_refused() {
    let with_hop = |spec: &str| {
        let mut s = mk_claim_sched();
        s.hop = parse_hop(spec);
        s
    };
    let fast = with_hop("36,40,44:20000");
    assert!(fast.hop.is_some(), "fixture check: the schedule exists before vetting");
    assert!(fast.vet_hop(Some(false)).hop.is_none(), "a 16 ms retune cannot serve a 20 ms dwell");
    let slow = with_hop("36,40,44:10000000");
    assert!(slow.vet_hop(Some(true)).hop.is_some(), "16 ms against a 10 s dwell is free");
    let unknown = with_hop("36,40,44:10000000");
    assert!(unknown.vet_hop(None).hop.is_none(), "an unmeasured retune cost is not a fast one");
}

#[test]
fn config_parsers_round_trip() {
    let s = parse_slot("8:3000", 0).expect("slot");
    assert_eq!(s.slots * s.slot_us.unwrap(), 8 * 3000);
    let h = parse_hop("1,6,11:120000").expect("hop");
    assert_eq!(h.channels, vec![1, 6, 11]);
    assert_eq!(h.dwell_us, 120000);
    assert!(parse_slot("garbage", 0).is_none());
    assert!(parse_hop(":100").is_none());
}

#[test]
fn configuration_takes_what_it_can_read() {
    assert_eq!(
        parse_slot(" 8 ", 4),
        Some(SlotPlan { slots: 8, slot_us: None, reserved_stride: 4 })
    );
    assert_eq!(
        parse_slot("+8: 20000", 0),
        Some(SlotPlan { slots: 8, slot_us: Some(20_000), reserved_stride: 0 })
    );
    assert_eq!(parse_slot("8:", 0), None);
    assert_eq!(parse_slot("18446744073709551616", 0), None);
    assert_eq!(parse_slot("8:3000:1", 0), None);
    let h = parse_hop("1, x ,300,6:7").unwrap();
    assert_eq!((h.channels, h.dwell_us), (vec![1, 6], 7));
    assert!(parse_hop("1,6,11").is_none());
    assert!(parse_hop("1,6:soon").is_none());
}

fn vars<'a>() -> SchedVars<'a> {
    SchedVars {
        slot: None,
        reserve: None,
        hop: None,
        clock: None,
        master: None,
        claim: None,
        claim_unknown: None,
        lease: None,
        node_id: None,
    }
}

#[test]
fn the_environment_builds_the_scheduler() {
    assert!(FaceScheduler::from_env(&vars()).is_none());
    let mut v = vars();
    v.slot = Some("nonsense");
    assert!(FaceScheduler::from_env(&v).is_none());

    v.slot = Some("8:3000");
    v.reserve = Some("4");
    v.clock = Some("cv");
    v.master = Some("1");
    v.claim = Some("1");
    v.claim_unknown = Some("");
    v.lease = Some("0");
    v.node_id = Some("17");
    let s = FaceScheduler::from_env(&v).unwrap();
    assert_eq!(
        s.slot,
        Some(SlotPlan { slots: 8, slot_us: Some(3000), reserved_stride: 4 })
    );
    assert!(s.hop.is_none());
    assert_eq!(s.settings.clock_source, ClockSource::CommonView);
    assert!(s.is_master() && s.settings.claimable && s.settings.claim_unknown);
    assert_eq!((s.settings.lease_max, s.settings.node_id), (1, 17));
    assert_eq!(s.deferred_by_slot.len(), 8);

    let mut v = vars();
    v.hop = Some("1,6:1000");
    v.clock = Some("hardware");
    v.master = Some("yes");
    v.claim = Some("0");
    v.lease = Some("6");
    v.node_id = Some("many");
    let s = FaceScheduler::from_env(&v).unwrap();
    assert!(s.slot.is_none() && s.hop.is_some());
    assert_eq!(s.settings.clock_source, ClockSource::Hardware);
    assert!(!s.is_master() && !s.settings.claimable && !s.settings.claim_unknown);
    assert_eq!((s.settings.lease_max, s.settings.node_id), (6, u64::MAX));
    assert_eq!(s.deferred_by_slot.len(), 1);
}

#[test]
fn a_slot_is_only_claimable_with_evidence_its_owner_is_in_range() {
    let mut s = mk_claim_sched();
    let name = b"/ndn/alarm";
    let first = prefix_hash(&[b"ndn"]);
    let (h, c) = s.name_group(Some(name), Some(first)).expect("the frame carries a name");
    let owned = EIGHT.owner_slot(s.medium_keyed(h), c) as usize;

    assert!(s.evidence.heard_by_slot.iter().all(|t| *t == 0), "no evidence yet");

    assert!(hear(&mut s, &EIGHT, "/ndn/alarm", None, 77_000));
    assert_eq!(s.evidence.heard_by_slot[owned], 77_000);
    let others = (0..8).filter(|i| *i != owned && s.evidence.heard_by_slot[*i] > 0).count();
    assert_eq!(others, 0, "and must not vouch for any other slot's owner");
    assert!(s.evidence.last_domain_rx > 0, "busy-marking must not depend on the timing plane");
}

#[test]
fn ambient_traffic_does_not_mark_a_slot_busy() {
    let mut s = mk_claim_sched();
    // A frame of an unrelated network: no name in it, so no group.
    assert!(s.name_group(None, None).is_none());
    assert!(s.observe_rx(Some(BROADCAST), None, None, None, None, 5_000).is_none());
    assert_eq!(s.evidence.last_domain_rx, 0, "every slot stays claimable");
    assert_eq!(s.ambient_frames(), 1, "but it must still be counted");
    assert!(s.evidence.heard_by_slot.iter().all(|t| *t == 0), "evidence about nobody");

    assert!(hear(&mut s, &EIGHT, "/ndn/alarm", None, 6_000));
    assert_eq!(s.evidence.last_domain_rx, 6_000, "our own traffic still marks the slot taken");
}

#[test]
fn without_claiming_nothing_is_recorded() {
    let mut s = FaceScheduler::new(settings(false), parse_slot("8:3000", 0), None);
    let key = prefix_hash(&[b"ndn"]);
    assert!(s.observe_rx(Some(BROADCAST), None, None, Some(b"/ndn"), Some(key), 9).is_none());
    assert!(s.observe_rx(Some(BROADCAST), None, None, None, None, 9).is_none());
    assert_eq!((s.evidence.last_domain_rx, s.ambient_frames()), (0, 0));
}

#[test]
fn presence_evidence_survives_a_once_a_second_neighbour() {
    let mut s = mk_claim_sched();
    s.evidence.heard_by_slot[3] = 1_000_000;
    assert!(s.owner_in_range(3, 1_000_000 + 1_000_000, 3000, 8));
    assert!(!s.owner_in_range(3, 1_000_000 + PRESENCE_WINDOW_US + 1, 3000, 8));
    assert!(!s.owner_in_range(5, 1_000_000, 3000, 8), "an unheard owner is not in range");
    assert!(!s.owner_in_range(99, 1_000_000, 3000, 8), "nor one of no slot");
    // Two superframes are the floor of the window.
    assert!(s.owner_in_range(3, 1_000_000 + 16_000_000, 1_000_000, 8));
    assert!(!s.owner_in_range(3, 1_000_000 + 16_000_001, 1_000_000, 8));
}

#[test]
fn the_cclf_draw_is_sized_by_airtime_not_by_the_slot() {
    let mut s = mk_claim_sched();
    let h = prefix_hash(&[b"ndn", b"bulk"]);
    let slot_us = 20_000;
    let airtime = 250;

    for e in 0..256u64 {
        let d = cclf_jitter_us(h, slot_us, e, airtime, 0);
        assert!(d <= airtime * CCLF_SPREAD);
        assert!(d >= 1, "never zero — zero is a collision, not an ordering");
    }
    let long = 4_000;
    for e in 0..64u64 {
        assert!(cclf_jitter_us(h, slot_us, e, long, 0) <= slot_us / 2);
    }
    for _ in 0..8 {
        s.note_deferred(2);
    }
    let band = (airtime * CCLF_SPREAD) >> 4;
    assert!(band < airtime * 2, "fixture check: a flat ÷16 would collapse this window");
    let mut spread = HashSet::new();
    for e in 0..256u64 {
        spread.insert(cclf_jitter_us(h, slot_us, e, airtime, s.deferred_for(2)) / airtime);
    }
    assert!(spread.len() >= 2, "the draws must span more than one detection time ({spread:?})");
}

#[test]
fn a_waiting_frame_contends_for_every_slot_it_passes() {
    let map = SlotMap { slot_us: 5000, slots: 8, stride: 0 };
    let mut s = FaceScheduler::new(settings(true), parse_slot("8:5000", 0), None);
    let start = 1_000_000u64;
    let target = (map.current(start) + 4) % 8;
    let h = (0..2000u64)
        .map(|i| prefix_hash(&[format!("n{i}").as_bytes()]))
        .find(|h| map.owner_slot(*h, LeaseClass::Bulk) == target)
        .expect("some name in 2000 lands on the target slot");

    let mut now = start;
    let mut phase = GatePhase::Arrived;
    let mut moves = 0;
    loop {
        moves += 1;
        assert!(moves < 50, "the frame's own slot comes round");
        let r = map.read(h, LeaseClass::Bulk, now, AIR, 1);
        if s.gate_look(&r) == GateMove::Transmit {
            break;
        }
        assert_eq!(s.begin_claim(h, LeaseClass::Bulk, &r, AIR), ClaimStep::Refused);
        let (next, sleep) = s.gate_lost(phase, r.home, r.remaining_us);
        phase = next;
        now += sleep;
    }
    assert_eq!(map.current(now), target);
    let (attempts, wins) = s.claim_counts();
    assert_eq!(wins, 0, "with no presence evidence nothing may be claimed");
    assert!(attempts >= 3, "it contended {attempts} time(s)");
    assert_eq!(s.deferred_for(target as usize), 0, "the turn spent the backlog");
}

#[test]
fn a_lease_spans_base_slots_and_yields_at_a_reserved_lane() {
    let mut s = mk_claim_sched();
    s.settings.lease_max = 4;
    let map = SlotMap { slot_us: 3000, slots: 8, stride: 4 };
    let read = |now: u64| map.read(1, LeaseClass::Bulk, now, AIR, 4);

    let start = map.slot_us;
    let deadline = map.lease_deadline(start + 10, 4);
    assert_eq!(deadline, start + 3 * map.slot_us, "1,2,3 open then 4 reserved");
    s.claim.hold_slot_start = start;
    s.claim.lease_until = deadline;
    s.evidence.last_domain_rx = start - 5;

    let in_slot_2 = start + map.slot_us + 10;
    assert_eq!(s.hold_status(&read(in_slot_2)), HoldStatus::Continue);

    s.evidence.last_domain_rx = in_slot_2;
    assert_eq!(s.hold_status(&read(in_slot_2 + 50)), HoldStatus::Ended);

    s.evidence.last_domain_rx = start - 5;
    let in_lane_4 = 4 * map.slot_us + 10;
    s.claim.lease_until = in_lane_4 + map.slot_us;
    assert!(map.is_reserved(map.current(in_lane_4)), "fixture: slot 4 is a lane");
    assert_eq!(s.hold_status(&read(in_lane_4)), HoldStatus::Ended);

    s.claim.lease_until = deadline;
    assert_eq!(s.hold_status(&read(deadline + 10)), HoldStatus::NotHeld);
}

#[test]
fn tx_keying_and_rx_attribution_land_on_the_same_slot() {
    let key = [9u8; 16];
    let ndn = prefix_hash(&[b"ndn"]);
    let alarm = prefix_hash(&[b"ndn", b"alarm"]);
    let names = vec![b"/ndn".to_vec(), b"/ndn/alarm".to_vec()];
    let mut s = mk_claim_sched().with_groups(GroupTable::new(&key, &names, &vec![ndn, alarm]));

    let (tx_hash, class) = s.name_group(Some(b"/ndn/alarm/7"), Some(ndn)).expect("keyed");
    assert_eq!(tx_hash, alarm, "longest registered prefix wins on TX");
    assert_eq!(class, LeaseClass::Bulk);

    let mut f = PrefixFilter::new();
    f.insert_name(&key, b"/ndn/alarm/7");
    let w = f.to_wire();
    let (rx_hash, _) = s.attribute_filter(w, true, None, 1_000).expect("attributed");
    assert_eq!(rx_hash, tx_hash, "RX mask attribution and TX keying disagree — two maps");

    let mut foreign = w;
    foreign[0] = 0x00;
    assert_eq!(s.attribute_filter(foreign, true, None, 1_000), None, "foreign unicast is ambient");

    let mut other = PrefixFilter::new();
    other.insert_name(&key, b"/zzz/bulk");
    let ow = other.to_wire();
    assert_eq!(s.attribute_filter(ow, true, None, 1_000), None, "no name, and never seen");
    let zzz = prefix_hash(&[b"zzz"]);
    let (first, _) = s.attribute_filter(ow, true, Some(zzz), 1_000).expect("cold parse");
    let (second, _) = s.attribute_filter(ow, true, None, 2_000).expect("cache hit");
    assert_eq!((first, second), (zzz, zzz), "the learned cache must return the parsed hash");
    assert_eq!(s.attribute_octets(ow, true, 3_000), Attribution::Known(zzz, LeaseClass::Bulk));
}

#[test]
fn a_filter_addressed_frame_is_attributed_by_its_octets() {
    let key = [9u8; 16];
    let alarm = prefix_hash(&[b"alarm"]);
    let table = GroupTable::new(&key, &vec![b"/alarm".to_vec()], &vec![alarm])
        .with_latency(&vec![b"/alarm".to_vec()]);
    let mut s = mk_claim_sched().with_groups(table);
    let mut f = PrefixFilter::new();
    f.insert_name(&key, b"/alarm/fire");
    let nonce = [0x02, 0x4e, 0x44, 0x4e, 0x12, 0x34];
    let a = address_frame(Some(f.to_wire()), nonce);
    let h = s
        .observe_rx(Some(a.dst), Some(a.src), a.addr3, None, None, 500)
        .expect("no name is needed");
    assert_eq!(h.class, LeaseClass::Latency);
    assert_eq!(h.keyed, s.medium_keyed(alarm));
    // The filter displaces all but the last two octets of the sender's nonce.
    assert_eq!(h.nonce, nonce_u64(&[0, 0, 0, 0, 0x12, 0x34]));
}

#[test]
fn a_registered_root_covers_every_name() {
    let key = [9u8; 16];
    let root = prefix_hash(&[]);
    let t = GroupTable::new(&key, &vec![b"/".to_vec()], &vec![root]);
    assert_eq!(t.hash_for_name(b"/a"), Some((root, LeaseClass::Bulk)));
    assert_eq!(t.hash_for_name(b"/"), Some((root, LeaseClass::Bulk)));
    let mut f = PrefixFilter::new();
    f.insert_name(&key, b"/a");
    assert_eq!(t.hash_for_filter(&f), t.hash_for_name(b"/a"), "one name, one slot map");
    let s = mk_claim_sched().with_groups(t);
    assert_eq!(s.name_group(Some(b"/a"), Some(7)), Some((root, LeaseClass::Bulk)));

    let a = prefix_hash(&[b"a"]);
    let t = GroupTable::new(&key, &vec![b"/".to_vec(), b"/a".to_vec()], &vec![root, a]);
    assert_eq!(t.hash_for_name(b"/a/b"), Some((a, LeaseClass::Bulk)), "the longer one wins");
    assert_eq!(t.hash_for_name(b"/ab"), Some((root, LeaseClass::Bulk)));
}

#[test]
fn a_nameless_fragment_without_its_third_address_marks_its_slot() {
    let key = [9u8; 16];
    let alarm = prefix_hash(&[b"alarm"]);
    let table = GroupTable::new(&key, &vec![b"/alarm".to_vec()], &vec![alarm]);
    let mut f = PrefixFilter::new();
    f.insert_name(&key, b"/alarm/fire");
    let a = address_frame(Some(f.to_wire()), [0x02, 0x4e, 0x44, 0x4e, 0x12, 0x34]);

    let mut s = mk_claim_sched().with_groups(table);
    let h = s.observe_rx(Some(a.dst), Some(a.src), None, None, None, 500).expect("attributed");
    assert_eq!((h.keyed, h.class), (s.medium_keyed(alarm), LeaseClass::Bulk));
    assert_eq!((s.evidence.last_domain_rx, s.ambient_frames()), (500, 0));

    // A group that no mask fits is told by its name, and is ambient until it is named.
    let mut other = PrefixFilter::new();
    other.insert_name(&key, b"/zzz/bulk");
    let o = address_frame(Some(other.to_wire()), [0x02, 0x4e, 0x44, 0x4e, 0x12, 0x34]);
    let zzz = prefix_hash(&[b"zzz"]);
    assert!(s.observe_rx(Some(o.dst), Some(o.src), None, None, None, 600).is_none());
    let h = s
        .observe_rx(Some(o.dst), Some(o.src), None, Some(b"/zzz/bulk"), Some(zzz), 700)
        .expect("named");
    assert_eq!(h.keyed, s.medium_keyed(zzz));
    assert_eq!(s.ambient_frames(), 1);
}

#[test]
fn an_unregistered_group_is_parsed_once_with_or_without_its_third_address() {
    let mut f = PrefixFilter::new();
    f.insert_name(&[9u8; 16], b"/zzz/bulk");
    let a = address_frame(Some(f.to_wire()), [0x02, 0x4e, 0x44, 0x4e, 0x12, 0x34]);
    let zzz = prefix_hash(&[b"zzz"]);
    for first in [a.addr3, None] {
        for later in [a.addr3, None] {
            let mut s = mk_claim_sched();
            let (dst, src) = (Some(a.dst), Some(a.src));
            assert!(s.observe_rx(dst, src, first, None, None, 600).is_none());
            let h = s
                .observe_rx(dst, src, first, Some(b"/zzz/bulk"), Some(zzz), 700)
                .expect("parsed");
            assert_eq!((h.keyed, s.learned.len()), (s.medium_keyed(zzz), 1));
            let h = s.observe_rx(dst, src, later, None, None, 800).expect("known by its octets");
            assert_eq!((h.keyed, h.class), (s.medium_keyed(zzz), LeaseClass::Bulk));
            assert_eq!((s.learned.len(), s.learned[0].seen, s.ambient_frames()), (1, 800, 1));
        }
    }
}

#[test]
fn the_learned_groups_stay_under_their_cap() {
    let mut s = mk_claim_sched();
    let wire = |i: usize| {
        let mut f = PrefixFilter::new();
        f.insert_name(&[3u8; 16], format!("/g{i}").as_bytes());
        f.to_wire()
    };
    for i in 0..LEARNED_GROUP_CAP {
        assert!(s.attribute_filter(wire(i), true, Some(i as u64), 100 + i as u64).is_some());
    }
    // The oldest speaks again, so the next oldest gives way.
    assert_eq!(s.attribute_filter(wire(0), true, None, 900), Some((0, LeaseClass::Bulk)));
    assert!(s.attribute_filter(wire(1_000), true, Some(7), 901).is_some());
    assert_eq!(s.learned.len(), LEARNED_GROUP_CAP);
    assert_eq!(s.attribute_octets(wire(1), true, 902), Attribution::Novel);
    assert_eq!(s.attribute_octets(wire(0), true, 902), Attribution::Known(0, LeaseClass::Bulk));
    assert_eq!(s.attribute_octets(wire(1_000), true, 902), Attribution::Known(7, LeaseClass::Bulk));
}

#[test]
fn backlog_shortens_the_cclf_draw_but_keeps_an_ordering() {
    let mut s = mk_claim_sched();
    let h = prefix_hash(&[b"ndn", b"bulk"]);
    let home = EIGHT.owner_slot(h, LeaseClass::Bulk) as usize;
    let draw = |s: &FaceScheduler, hash: u64, k: usize| {
        cclf_jitter_us(hash, 3000, 7, 200, s.deferred_for(k))
    };

    let idle_draw = draw(&s, h, home);
    assert!(idle_draw >= 1);
    let mut prev = idle_draw;
    for _ in 0..4 {
        s.note_deferred(home);
        let d = draw(&s, h, home);
        assert!(d <= prev, "backlog must not lengthen the wait: {d} > {prev}");
        prev = d;
    }
    assert!(prev < idle_draw, "a backlogged group must draw shorter ({prev} vs {idle_draw})");
    assert!(prev >= 1);

    s.note_sent(home);
    assert_eq!(draw(&s, h, home), idle_draw, "after transmitting, an idle group again");

    let other = prefix_hash(&[b"ndn", b"quiet"]);
    let quiet = (home + 1) % 8;
    let before = draw(&s, other, quiet);
    for _ in 0..4 {
        s.note_deferred(home);
    }
    assert_eq!(draw(&s, other, quiet), before, "one group's backlog is not another's");
    assert_eq!(s.deferred_for(home), 4);
    s.note_deferred(800);
    assert_eq!(s.deferred_for(800), 0);
}

#[test]
fn a_claim_holds_the_slot_until_the_owner_speaks() {
    let mut s = mk_claim_sched();
    let start = 30_000u64;
    let read = |now: u64| EIGHT.read(1, LeaseClass::Bulk, now, AIR, 1);

    assert_eq!(s.hold_status(&read(start + 10)), HoldStatus::NotHeld);

    s.claim.hold_slot_start = start;
    s.claim.lease_until = start + 3000;
    s.evidence.last_domain_rx = start - 5;
    assert_eq!(s.hold_status(&read(start + 10)), HoldStatus::Continue);

    s.evidence.last_domain_rx = start + 100;
    assert_eq!(s.hold_status(&read(start + 150)), HoldStatus::Ended);

    s.evidence.last_domain_rx = start - 5;
    assert_eq!(s.hold_status(&read(start + 3000 - 1)), HoldStatus::Ended);

    assert_eq!(s.hold_status(&read(start + 3000 + 10)), HoldStatus::NotHeld);
}

#[test]
fn prop_p1_map_agreement() {
    let key = [1u8; 16];
    let names = vec![b"/alarm".to_vec(), b"/bulk".to_vec(), b"/ndn".to_vec()];
    let hashes: Vec<u64> =
        vec![prefix_hash(&[b"alarm"]), prefix_hash(&[b"bulk"]), prefix_hash(&[b"ndn"])];
    let map = SlotMap { slot_us: 3000, slots: 8, stride: 4 };
    let nodes: Vec<FaceScheduler> = (0..5)
        .map(|_| {
            let t = GroupTable::new(&key, &names, &hashes).with_latency(&vec![b"/alarm".to_vec()]);
            mk_claim_sched().with_groups(t)
        })
        .collect();
    for name in [&b"/alarm/1"[..], b"/bulk/x/y", b"/ndn/z", b"/unregistered/q"] {
        let first = name[1..].split(|b| *b == b'/').next().unwrap();
        let key = prefix_hash(&[first]);
        let views: Vec<(u64, LeaseClass, u64)> = nodes
            .iter()
            .map(|n| {
                let (h, c) = n.name_group(Some(name), Some(key)).expect("keyed");
                (h, c, map.owner_slot(n.medium_keyed(h), c))
            })
            .collect();
        assert!(views.windows(2).all(|w| w[0] == w[1]), "nodes disagree: {views:?}");
        let (_, class, owned) = views[0];
        match class {
            LeaseClass::Latency => assert!(map.is_reserved(owned), "latency outside its lane"),
            LeaseClass::Bulk => assert!(!map.is_reserved(owned), "bulk inside a lane"),
        }
        assert_eq!(class == LeaseClass::Latency, name.starts_with(b"/alarm"));
    }
}

#[test]
fn prop_p2_lanes_inviolate_under_claim_pressure() {
    let map = SlotMap { slot_us: 3000, slots: 8, stride: 4 };
    let mut s = mk_claim_sched();
    let h = prefix_hash(&[b"bulk"]);
    let own = map.owner_slot(h, LeaseClass::Bulk);
    for t in s.evidence.heard_by_slot.iter_mut() {
        *t = 240_000;
    }
    for _ in 0..4 {
        s.note_deferred(own as usize);
    }
    let lane = 240_000 + 12_000 + 100;
    assert!(map.is_reserved(map.current(lane)));
    assert!(!try_claim(&mut s, &map, h, LeaseClass::Bulk, lane), "a bulk claim took a lane");
    assert!(!try_claim(&mut s, &map, h, LeaseClass::Latency, lane));
    assert_eq!(s.claim_counts(), (0, 0), "neither counts as an attempt");

    let mut claimed = false;
    for turn in 0..6u64 {
        for k in 0..8u64 {
            let now = 480_000 + turn * 24_000 + k * 3000 + 100;
            let far = map.wait_us(h, LeaseClass::Bulk, now) > 3000;
            if !claimed && !map.is_reserved(k) && k != own && far {
                claimed = try_claim(&mut s, &map, h, LeaseClass::Bulk, now);
            }
        }
    }
    assert!(claimed, "an idle, evidenced open slot must still be claimable");
}

/// How long a frame of this name is gated for, from `now` on.
fn gate(s: &mut FaceScheduler, map: &SlotMap, hash: u64, class: LeaseClass, mut now: u64) -> u64 {
    let mut phase = GatePhase::Arrived;
    loop {
        let r = map.read(hash, class, now, AIR, s.settings.lease_max);
        if s.gate_look(&r) == GateMove::Transmit {
            return now;
        }
        match s.begin_claim(hash, class, &r, AIR) {
            ClaimStep::Granted => return now,
            ClaimStep::Contend(wait) => {
                let later = now + wait;
                if s.finish_claim(&r) {
                    return later;
                }
                now = later;
            }
            ClaimStep::Refused => {}
        }
        let left = map.slot_us - now % map.slot_us;
        let (next, sleep) = s.gate_lost(phase, r.home, left);
        phase = next;
        now += sleep;
    }
}

#[test]
fn prop_p3_latency_delay_bounded_under_saturating_bulk() {
    let map = SlotMap { slot_us: 3000, slots: 8, stride: 4 };
    let mut lat = mk_claim_sched();
    let mut bulk = mk_claim_sched();
    bulk.settings.lease_max = 8;
    let (ha, hb) = (prefix_hash(&[b"alarm"]), prefix_hash(&[b"bulk"]));
    let end = 1_000_000 + 600_000;
    let (mut t, mut sent) = (1_000_000u64, 0);
    while t < end {
        t = gate(&mut bulk, &map, hb, LeaseClass::Bulk, t) + AIR;
        sent += 1;
    }
    assert!(sent > 20, "bulk must actually have been saturating (sent {sent})");
    let mut now = 1_000_000u64;
    let mut worst = 0;
    for _ in 0..12 {
        let at = gate(&mut lat, &map, ha, LeaseClass::Latency, now);
        assert!(map.is_reserved(map.current(at)));
        worst = worst.max(at - now);
        now = at + 3000;
    }
    assert!(worst <= 24_000 + 2 * 3000, "latency access delay {worst} µs");
}

#[test]
fn prop_p4_p5_audible_owner_and_foreign_blindness() {
    let mut s = mk_claim_sched();
    let h = prefix_hash(&[b"mine"]);
    let own = EIGHT.owner_slot(h, LeaseClass::Bulk);
    let now = 480_000 + ((own + 4) % 8) * 3000 + 100;
    for t in s.evidence.heard_by_slot.iter_mut() {
        *t = now;
    }
    assert!(hear(&mut s, &EIGHT, "/owner/1", None, now));
    assert!(
        !try_claim(&mut s, &EIGHT, h, LeaseClass::Bulk, now),
        "claimed over an audible owner — theft, not opportunism"
    );

    let mut s2 = mk_claim_sched();
    let before = s2.evidence.heard_by_slot.clone();
    let mut near_cap = [0u8; 12];
    near_cap[0] = 0b0000_0011;
    for b in near_cap.iter_mut().take(8).skip(1) {
        *b = 0xff;
    }
    let (mut g, mut a) = ([0u8; 6], [0u8; 6]);
    g.copy_from_slice(&near_cap[..6]);
    a.copy_from_slice(&near_cap[6..]);
    for i in 0..5_000u32 {
        let mut foreign = [0x00u8, 0x1b, 0x44, 0x11, 0x3a, 0xb7];
        foreign[5] = i as u8;
        let t = 1_000 + i as u64;
        s2.observe_rx(Some(foreign), Some([0x00, 0x1b, 0x44, 0, 0, 1]), None, None, None, t);
        s2.observe_rx(Some([0xff; 6]), Some([0xff; 6]), None, None, None, t);
        s2.observe_rx(Some(g), Some(a), None, None, None, t);
    }
    assert_eq!(s2.evidence.last_domain_rx, 0, "foreign frames marked the domain busy");
    assert_eq!(s2.evidence.heard_by_slot, before, "foreign frames forged presence");
    assert_eq!(s2.ambient_frames(), 15_000, "and every one of them was counted");
}

/// Node B's nonce, as the lab medium stamps it.
const B: [u8; 6] = [0x02, 0x4e, 0x44, 0x4e, 0x00, 2];

/// A's key and the slot of the hidden group, far enough from each other.
fn hidden_setup(s: &FaceScheduler) -> (u64, u64) {
    let c = prefix_hash(&[b"c"]);
    let c_slot = EIGHT.owner_slot(s.medium_keyed(c), LeaseClass::Bulk);
    let a = (0..500u32)
        .map(|i| s.medium_keyed(prefix_hash(&[format!("a{i}").as_bytes()])))
        .find(|h| {
            let d = (EIGHT.owner_slot(*h, LeaseClass::Bulk) + 8 - c_slot) % 8;
            (3..=5).contains(&d)
        })
        .expect("a suitably distant group exists");
    (a, c_slot)
}

#[test]
fn prop_p6_hidden_terminal_refused_when_the_relay_is_recognizable() {
    let mut a = mk_claim_sched();
    let (a_keyed, c_slot) = hidden_setup(&a);
    let b_name = (0..500u32)
        .map(|i| format!("b{i}"))
        .find(|n| {
            let h = a.medium_keyed(prefix_hash(&[n.as_bytes()]));
            EIGHT.owner_slot(h, LeaseClass::Bulk) != c_slot
        })
        .unwrap();
    assert!(hear(&mut a, &EIGHT, &format!("/{b_name}"), Some(B), 100_000));
    assert!(hear(&mut a, &EIGHT, "/c/data", Some(B), 100_001));
    for turn in 0..6u64 {
        let now = 240_000 + turn * 24_000 + c_slot * 3000 + 100;
        assert!(
            !try_claim(&mut a, &EIGHT, a_keyed, LeaseClass::Bulk, now),
            "A claimed a slot whose only evidence came from a recognizable relay"
        );
    }
}

#[test]
fn prop_p6_residual_pure_silent_relay_still_collides() {
    let mut a = mk_claim_sched();
    let (a_keyed, c_slot) = hidden_setup(&a);
    assert!(hear(&mut a, &EIGHT, "/c/data", Some(B), 100_001));
    let mut collision_at_b = false;
    for turn in 0..6u64 {
        let now = 240_000 + turn * 24_000 + c_slot * 3000 + 100;
        collision_at_b =
            collision_at_b || try_claim(&mut a, &EIGHT, a_keyed, LeaseClass::Bulk, now);
    }
    assert!(collision_at_b, "the pure-silent-relay claim was refused");
}

#[test]
fn prop_p7_channels_stagger_the_map() {
    let mut s36 = mk_claim_sched();
    let mut s149 = mk_claim_sched();
    assert!(!s36.retune(36));
    assert!(s149.retune(149));
    assert!(!s149.retune(149));
    let names: Vec<u64> = (0..32u32).map(|i| prefix_hash(&[format!("n{i}").as_bytes()])).collect();
    let differing = names
        .iter()
        .filter(|h| {
            EIGHT.owner_slot(s36.medium_keyed(**h), LeaseClass::Bulk)
                != EIGHT.owner_slot(s149.medium_keyed(**h), LeaseClass::Bulk)
        })
        .count();
    assert!(differing >= names.len() / 2, "channel keying barely staggers the map ({differing}/32)");
    assert_eq!(s36.medium_keyed(0), 36 * 0x9e37_79b9);
}

#[test]
fn prop_p9_claimant_fairness_demand_weighted() {
    let mut s = mk_claim_sched();
    let names: Vec<u64> = (0..8u32).map(|i| prefix_hash(&[format!("g{i}").as_bytes()])).collect();
    let count = |s: &FaceScheduler| {
        let mut wins: HashMap<usize, u32> = HashMap::new();
        for e in 0..2_000u64 {
            let w = (0..8usize)
                .min_by_key(|i| cclf_jitter_us(names[*i], 3_000, e, 200, s.deferred_for(*i)))
                .unwrap();
            *wins.entry(w).or_insert(0) += 1;
        }
        wins
    };
    let wins = count(&s);
    assert_eq!(wins.len(), names.len(), "a claimant is starved: {wins:?}");
    assert!(*wins.values().max().unwrap() < 1_000, "a claimant dominates: {wins:?}");

    for _ in 0..3 {
        s.note_deferred(3);
    }
    let wins2 = count(&s);
    assert!(wins2[&3] > wins[&3] * 3 / 2, "backlog did not bias: {} -> {}", wins[&3], wins2[&3]);
    assert_eq!(wins2.len(), names.len(), "demand bias starved someone: {wins2:?}");
}

#[test]
fn prop_p10_a_lease_burst_pays_one_election() {
    let mut s = mk_claim_sched();
    s.settings.lease_max = 8;
    let h = s.medium_keyed(prefix_hash(&[b"mine"]));
    let own = EIGHT.owner_slot(h, LeaseClass::Bulk);
    let mut won_at = None;
    for turn in 0..6u64 {
        let now = 480_000 + turn * 24_000 + ((own + 3) % 8) * 3000 + 100;
        for t in s.evidence.heard_by_slot.iter_mut() {
            *t = now - 1;
        }
        s.evidence.last_domain_rx = 0;
        if try_claim(&mut s, &EIGHT, h, LeaseClass::Bulk, now) {
            won_at = Some(now);
            break;
        }
    }
    let now = won_at.expect("the election must be winnable");
    let (elections_paid, elections_won, holds) = s.election_counts();
    assert_eq!(elections_won, 1, "one win");
    assert_eq!(holds, 0, "the win itself is not a continuation");
    assert_eq!(s.claim.lease_until, EIGHT.start(now) + 8 * 3000);

    let mut continued = 0;
    while continued < 5 {
        let t = now + 3_000 * (continued + 1);
        assert!(try_claim(&mut s, &EIGHT, h, LeaseClass::Bulk, t));
        continued += 1;
    }
    let (e2, w2, h2) = s.election_counts();
    assert_eq!(e2, elections_paid, "a burst inside a won lease paid an extra election");
    assert_eq!(h2, continued, "every burst frame is a continuation");
    assert_eq!(w2, 1, "and none of them is a new election win");
    let (attempts, wins) = s.claim_counts();
    assert!(attempts >= 1 + continued);
    assert_eq!(wins, 1 + continued);
}

#[test]
fn a_lease_outlasts_a_full_slot() {
    let mut s = mk_claim_sched();
    s.settings.lease_max = 8;
    let h = s.medium_keyed(prefix_hash(&[b"mine"]));
    let own = EIGHT.owner_slot(h, LeaseClass::Bulk);
    let now = 480_000 + ((own + 3) % 8) * 3000 + 100;
    for t in s.evidence.heard_by_slot.iter_mut() {
        *t = now - 1;
    }
    s.evidence.last_domain_rx = 0;
    assert!(try_claim(&mut s, &EIGHT, h, LeaseClass::Bulk, now));
    let (paid, _, _) = s.election_counts();

    // Too late in the slot for the frame: it waits, and the lease stays.
    let late = EIGHT.start(now) + 3000 - 1;
    let r = EIGHT.read(h, LeaseClass::Bulk, late, AIR, 8);
    assert_eq!(s.hold_status(&r), HoldStatus::Ended);
    assert!(!try_claim(&mut s, &EIGHT, h, LeaseClass::Bulk, late));
    assert!(try_claim(&mut s, &EIGHT, h, LeaseClass::Bulk, late + 1), "the next slot goes on");
    assert_eq!(s.election_counts(), (paid, 1, 1), "without another election");

    // In the last slot of the lease there is nothing left to wait for.
    s.claim.lease_until = EIGHT.start(late + 1) + 3000;
    assert!(!try_claim(&mut s, &EIGHT, h, LeaseClass::Bulk, late + 3000));
    assert_eq!((s.claim.hold_slot_start, s.claim.lease_until), (u64::MAX, 0));

    // And whoever is heard ends it at once.
    s.claim.hold_slot_start = EIGHT.start(now);
    s.claim.lease_until = EIGHT.start(now) + 24_000;
    s.evidence.last_domain_rx = late + 3001;
    assert!(!try_claim(&mut s, &EIGHT, h, LeaseClass::Bulk, late + 6000));
    assert_eq!(s.claim.lease_until, 0);
}

#[test]
fn prop_p11_skew_times_long_frames_defeats_lanes_and_cv_restores_them() {
    let map = SlotMap { slot_us: 6_000, slots: 8, stride: 4 };
    let air: u64 = 1_900;
    // A sends long frames as its own view of the time allows; C looks at each of its lane starts
    // whether a frame of A is on air.
    let run = |skew: i64| {
        let mut a = mk_claim_sched();
        a.settings.lease_max = 8;
        let h = prefix_hash(&[b"bulk"]);
        let (begin, end) = (10_000_000u64, 11_500_000u64);
        let mut log: Vec<(u64, u64)> = Vec::new();
        let mut t = begin;
        while t < end {
            let view = (t as i64 + skew) as u64;
            for c in a.evidence.heard_by_slot.iter_mut() {
                *c = view;
            }
            a.evidence.last_domain_rx = 0;
            let mut now = view;
            let mut phase = GatePhase::Arrived;
            let sent = loop {
                let r = map.read(h, LeaseClass::Bulk, now, air, 8);
                if a.gate_look(&r) == GateMove::Transmit {
                    break now;
                }
                match a.begin_claim(h, LeaseClass::Bulk, &r, air) {
                    ClaimStep::Granted => break now,
                    ClaimStep::Contend(wait) => {
                        assert!(a.finish_claim(&r), "nobody speaks");
                        break now + wait;
                    }
                    ClaimStep::Refused => {}
                }
                let (next, sleep) = a.gate_lost(phase, r.home, r.remaining_us);
                phase = next;
                now += sleep;
            };
            let wall = (sent as i64 - skew) as u64;
            log.push((wall, wall + air));
            t = wall + air;
        }
        let (mut alarms, mut hit) = (0u32, 0u32);
        let mut lane = begin;
        while lane < end {
            if map.is_reserved(map.current(lane)) {
                let t = map.start(lane) + 20;
                alarms += 1;
                hit += log.iter().any(|(s, e)| *s < t + 90 && *e > t) as u32;
            }
            lane += map.slot_us;
        }
        (alarms, hit)
    };
    let (alarms, hit) = run(-2_000);
    assert!(alarms >= 40, "enough lane occurrences ({alarms})");
    let skewed = hit as f64 / alarms as f64;
    assert!(skewed > 0.10, "boundary overlap must be substantial — got {hit}/{alarms}");
    let (alarms2, hit2) = run(0);
    assert!((hit2 as f64 / alarms2 as f64) < skewed / 3.0, "{hit2}/{alarms2} vs {hit}/{alarms}");
}

#[test]
fn a_claim_is_refused_for_each_of_its_reasons() {
    let h = prefix_hash(&[b"mine"]);
    let own = EIGHT.owner_slot(h, LeaseClass::Bulk);
    let now = 480_000 + ((own + 4) % 8) * 3000 + 10;
    let ready = || {
        let mut s = mk_claim_sched();
        for t in s.evidence.heard_by_slot.iter_mut() {
            *t = now - 5_000;
        }
        s
    };
    let mut s = ready();
    let r = EIGHT.read(h, LeaseClass::Bulk, now, AIR, 1);
    let step = s.begin_claim(h, LeaseClass::Bulk, &r, AIR);
    let wait = cclf_jitter_us(h, 3000, r.epoch, AIR, 0);
    assert_eq!(step, ClaimStep::Contend(wait));
    assert_eq!(s.election_counts(), (1, 0, 0));

    // Claiming is off.
    let mut s = ready();
    s.settings.claimable = false;
    assert_eq!(s.begin_claim(h, LeaseClass::Bulk, &r, AIR), ClaimStep::Refused);
    // The owner was never heard, but that may be waived.
    let mut s = mk_claim_sched();
    assert_eq!(s.begin_claim(h, LeaseClass::Bulk, &r, AIR), ClaimStep::Refused);
    s.settings.claim_unknown = true;
    assert_eq!(s.begin_claim(h, LeaseClass::Bulk, &r, AIR), ClaimStep::Contend(wait));
    // The frame's own turn is next.
    let mut s = ready();
    let soon = SlotReading { wait_us: 3000, ..r };
    assert_eq!(s.begin_claim(h, LeaseClass::Bulk, &soon, AIR), ClaimStep::Refused);
    // There is no room for draw and frame.
    let mut s = ready();
    let tight = SlotReading { remaining_us: wait + AIR, ..r };
    assert_eq!(s.begin_claim(h, LeaseClass::Bulk, &tight, AIR), ClaimStep::Refused);
    // Somebody spoke while the draw was waited out.
    let mut s = ready();
    assert!(matches!(s.begin_claim(h, LeaseClass::Bulk, &r, AIR), ClaimStep::Contend(_)));
    s.evidence.last_domain_rx = now + 1;
    assert!(!s.finish_claim(&r));
    assert_eq!(s.claim.hold_slot_start, u64::MAX);
}

#[test]
fn origin_and_fill_decide_what_is_a_filter() {
    let mut f = PrefixFilter::new();
    assert!(!carries_filter(f.to_wire()), "an empty filter speaks of no name");
    f.insert_name(&[7u8; 16], b"/x");
    assert!(carries_filter(f.to_wire()));
    assert!(!carries_filter([0xff; 16]));
    let mut cap = [0u8; 16];
    cap[0] = 0b11;
    let mut left = FILL_CAP;
    let mut i = 1;
    while left > 0 {
        let n = left.min(8);
        cap[i] = ((1u32 << n) - 1) as u8;
        left -= n;
        i += 1;
    }
    assert!(carries_filter(cap));
    cap[0] = 0b111;
    assert!(!carries_filter(cap), "one bit over the cap");
}

#[test]
fn a_nonce_is_never_the_unknown_one() {
    assert_eq!(nonce_u64(&[0; 6]), 1);
    assert_eq!(nonce_u64(&[0x02, 0x4e, 0x44, 0x4e, 0x00, 2]), 0x0200_4e44_4e02);
}

#[test]
fn names_with_more_components_than_asked_for_are_cut() {
    let t = name_tlv(&[b"a", b"", b"c"]);
    assert_eq!(name_components(&t, 2), vec![b"a".to_vec(), b"".to_vec()]);
    assert_eq!(name_components(&t, 9).len(), 3);
    assert!(name_components(&t, 0).is_empty());
    assert!(name_components(&[], 3).is_empty());
}
