use ndn_face_wireless::addressing::{
    address_frame, bloom_masks_for, bloom_wire_for_name, sender_tag, Fragment, Tier0Addresser,
    TIER0_CACHE_CAP,
};
use ndn_face_wireless::medium::{
    boot_seed, effective, generation_size, FanOut, LinkSignalStore, LinkSignals, LossMeter,
    RefreshTimer, RxFrame, RxReader, RxVerdict,
};
use ndn_face_wireless::name_gate::{filter_octets, NameGate, RxFilter, BROADCAST};
use ndn_face_wireless::rate::{McsDescriptor, McsPolicy, PlannedTx, RatePolicy, START_RSSI_DBM};
use ndn_face_wireless::sched::FaceScheduler;
use ndn_face_wireless::tier1::Tier1;
use ndn_face_wireless::tx::{
    bundle_cap, bundle_rates, AmsduCfg, Batch, TxBearer, TxRoute,
};

const KEY: [u8; 16] = *b"ndn/open-group-k";
const NONCE: [u8; 6] = [0x02, 0x4e, 0x44, 0x4e, 0xab, 0xcd];

fn rate(index: u8) -> McsDescriptor {
    McsDescriptor { index, short_gi: false, vht: false, nss: 1, stbc: false, ldpc: false }
}

fn frame<'a>(payload: &'a [u8], name: Option<&'a [u8]>) -> RxFrame<'a> {
    RxFrame {
        group: Some(BROADCAST),
        addr: Some(NONCE),
        addr3: None,
        rssi_dbm: Some(-50),
        mcs_index: None,
        payload,
        name,
        nic_serves: false,
    }
}

fn addressed<'a>(name: &'a [u8], payload: &'a [u8]) -> RxFrame<'a> {
    let a = address_frame(bloom_wire_for_name(&KEY, Some(name)), NONCE);
    RxFrame {
        group: Some(a.dst),
        addr: Some(a.src),
        addr3: a.addr3,
        ..frame(payload, Some(name))
    }
}

fn reader(gate: Option<NameGate>) -> RxReader {
    RxReader { scheduled: false, gate, rate: None, publishes: true, last_mesh: 0 }
}

fn bloom(prefixes: &[&[u8]]) -> NameGate {
    let list: Vec<Vec<u8>> = prefixes.iter().map(|p| p.to_vec()).collect();
    NameGate::new(RxFilter::Bloom(bloom_masks_for(&KEY, &list)), None)
}

#[test]
fn tier1_gates_the_rx_path_and_counts_what_it_drops() {
    let mut t1 = Tier1::new(&KEY, 8192, 4);
    t1.register_prefix(b"/served");
    t1.sync();
    let mut rx = reader(Some(NameGate::new(RxFilter::Open, Some(t1))));
    assert!(matches!(rx.receive(&frame(b"d", Some(b"/served/thing"))), RxVerdict::Deliver(_)));
    assert!(matches!(rx.receive(&frame(b"d", Some(b"/elsewhere/thing"))), RxVerdict::Dropped));
    assert!(
        matches!(rx.receive(&frame(b"tail", None)), RxVerdict::Deliver(_)),
        "a later fragment has no name, and passes"
    );
    let g = rx.gate.unwrap();
    assert_eq!((g.dropped_tier0(), g.dropped_tier1()), (0, 1), "the drop was not counted");
}

#[test]
fn an_unfed_bf_pit_drops_data_we_asked_for() {
    let mut t1 = Tier1::new(&KEY, 8192, 4);
    t1.register_prefix(b"/served");
    t1.sync();
    let mut g = NameGate::new(RxFilter::Open, Some(t1));
    let name: &[u8] = b"/asked/for/this";
    assert!(!g.admits(Some(BROADCAST), Some(NONCE), None, Some(name), true));
    let mut t1 = g.tier1.take().unwrap();
    t1.add_pit(name);
    t1.sync();
    g.tier1 = Some(t1);
    assert!(g.admits(Some(BROADCAST), Some(NONCE), None, Some(name), true));
    assert!(g.tier1().is_some());
}

#[test]
fn medium_bloom_filters_and_keys_nonce_from_addr3() {
    let mut relay = reader(Some(bloom(&[b"/x"])));
    let mut other = reader(Some(bloom(&[b"/w"])));
    let mut sources = Vec::new();
    for name in [&b"/x/y"[..], b"/x/z"] {
        match relay.receive(&addressed(name, b"d")) {
            RxVerdict::Deliver(d) => sources.push(d.source),
            v => panic!("relay hears the /x family, not {v:?}"),
        }
        assert!(matches!(other.receive(&addressed(name, b"d")), RxVerdict::Dropped));
    }
    assert_eq!(sources[0], sources[1], "two names from one producer share one neighbour address");
    assert_eq!(sources[0], Some([0, 0, 0, 0, 0xab, 0xcd]));
    assert_eq!(other.gate.unwrap().dropped_tier0(), 2);
}

#[test]
fn a_frame_without_its_third_address_is_not_held_to_it() {
    let mut relay = bloom(&[b"/x/y"]);
    let f = addressed(b"/x/y/z", b"d");
    assert!(relay.admits(f.group, f.addr, f.addr3, None, true));
    assert!(relay.admits(f.group, f.addr, None, None, true), "an over-accept, never a miss");
    assert!(relay.admits(f.group, None, None, None, true), "half a filter passes");
    assert!(relay.admits(None, None, None, None, true));
    assert_eq!(relay.dropped_tier0(), 0);
    assert_eq!(
        filter_octets(&[1; 6], &[2; 6], Some([3, 3, 3, 3, 9, 9])),
        [1, 1, 1, 1, 1, 1, 2, 2, 2, 2, 2, 2, 3, 3, 3, 3]
    );
}

#[test]
fn the_baseline_asks_with_the_name() {
    let mut g = NameGate::new(RxFilter::NdnNic, None);
    assert!(matches!(g.filter(), RxFilter::NdnNic));
    let a1 = Some([3u8; 6]);
    assert!(!g.admits(a1, Some(NONCE), None, Some(b"/x"), false));
    assert!(g.admits(a1, Some(NONCE), None, Some(b"/x"), true));
    assert!(g.admits(a1, Some(NONCE), None, None, false));
    assert!(NameGate::default().admits(a1, None, None, Some(b"/x"), false));
}

#[test]
fn an_unfiltered_frame_goes_to_everyone() {
    let a = address_frame(None, NONCE);
    assert_eq!((a.dst, a.src, a.addr3), (BROADCAST, NONCE, None));
    assert!(bloom_wire_for_name(&KEY, None).is_none());
    assert_eq!(sender_tag(Some([3; 6]), Some(NONCE), None), Some(NONCE));
    assert_eq!(sender_tag(None, None, None), None);
}

#[test]
fn only_a_filtered_frame_names_its_sender_in_the_third_address() {
    let third = Some([1, 2, 3, 4, 5, 6]);
    assert_eq!(sender_tag(Some([3; 6]), Some(NONCE), third), Some([0, 0, 0, 0, 5, 6]));
    assert_eq!(sender_tag(Some(BROADCAST), Some(NONCE), third), Some(NONCE));
    assert_eq!(sender_tag(None, Some(NONCE), third), Some(NONCE));
    assert_eq!(sender_tag(Some(BROADCAST), None, third), None);
    for group in [Some(BROADCAST), None] {
        let mut rx = reader(None);
        let f = RxFrame { group, addr3: third, ..frame(b"payload", None) };
        match rx.receive(&f) {
            RxVerdict::Deliver(d) => assert_eq!(d.source, Some(NONCE)),
            v => panic!("{v:?}"),
        }
    }
}

#[test]
fn tier0_fragment_cache_is_bounded() {
    let frag = |sequence: u64, frag_index: u64, frag_count: u64| {
        Some(Fragment { sequence, frag_index, frag_count })
    };
    let mut a = Tier0Addresser::new(KEY);
    let name: Option<&[u8]> = Some(b"/x/y");

    let opening = a.wire_for(frag(10, 0, 3), name);
    assert!(opening.is_some(), "the opening fragment carries the name");
    assert_eq!(a.in_flight(), 1, "the object is kept while its tail is outstanding");
    assert_eq!(a.wire_for(frag(11, 1, 3), None), opening, "mid fragment reuses the filter");
    assert_eq!(a.wire_for(frag(12, 2, 3), None), opening, "last fragment reuses it too");
    assert_eq!(a.in_flight(), 0, "completing the object must release its entry");
    assert_eq!(a.wire_for(frag(12, 2, 3), None), None);
    assert_eq!(a.wire_for(frag(7, 0, 1), name), opening, "a whole object is not kept");
    assert_eq!(a.wire_for(None, name), opening);
    assert_eq!(a.wire_for(frag(20, 0, 3), None), None);
    assert_eq!(a.in_flight(), 0);

    for i in 0..(TIER0_CACHE_CAP + 500) {
        let seq = 1_000_000 + (i as u64) * 10;
        let _ = a.wire_for(frag(seq, 0, 9), name);
    }
    assert!(a.in_flight() <= TIER0_CACHE_CAP, "abandoned objects must stay under the cap");
}

#[test]
fn medium_addresses_every_fragment_of_an_object_under_its_prefix() {
    let mut a = Tier0Addresser::new(KEY);
    let mut relay = bloom(&[b"/x"]);
    for i in 0..3u64 {
        let name: Option<&[u8]> = if i == 0 { Some(b"/x/y") } else { None };
        let h = Fragment { sequence: 100 + i, frag_index: i, frag_count: 3 };
        let f = address_frame(a.wire_for(Some(h), name), NONCE);
        assert_ne!(f.dst, BROADCAST, "fragment {i} fell back to broadcast");
        assert!(relay.admits(Some(f.dst), Some(f.src), f.addr3, None, true));
    }
    // Across the turn of the sequence numbers, too.
    let h = Fragment { sequence: u64::MAX, frag_index: 0, frag_count: 2 };
    let first = a.wire_for(Some(h), Some(b"/x/y"));
    let h = Fragment { sequence: 0, frag_index: 1, frag_count: 2 };
    assert_eq!(a.wire_for(Some(h), None), first);
}

#[test]
fn time_beacons_stay_in_the_face() {
    let beacon = FaceScheduler::build_beacon(123_456);
    let mut rx = reader(None);
    assert!(matches!(rx.receive(&frame(&beacon, None)), RxVerdict::Deliver(_)));
    rx.scheduled = true;
    match rx.receive(&frame(&beacon, None)) {
        RxVerdict::Beacon(t) => assert_eq!(t, 123_456),
        v => panic!("{v:?}"),
    }
    assert!(rx.mesh_is_new(1));
    assert!(!rx.mesh_is_new(1));
    assert!(rx.mesh_is_new(0));
}

#[test]
fn recv_publishes_rssi_and_drives_adaptive_mcs() {
    let mut rx = reader(Some(bloom(&[b"/x"])));
    rx.rate = Some(RatePolicy::new(McsPolicy::Adaptive));
    assert_eq!(rx.rate.unwrap().last_rssi, START_RSSI_DBM);
    rx.receive(&addressed(b"/w", b"d"));
    assert_eq!(rx.rate.unwrap().last_rssi, START_RSSI_DBM, "a dropped frame tells nothing");
    match rx.receive(&addressed(b"/x", b"d")) {
        RxVerdict::Deliver(d) => assert!(d.publish),
        v => panic!("{v:?}"),
    }
    assert_eq!(rx.rate.unwrap().last_rssi, -50);
    let mute = RxFrame { rssi_dbm: None, ..addressed(b"/x", b"d") };
    match rx.receive(&mute) {
        RxVerdict::Deliver(d) => assert!(!d.publish),
        v => panic!("{v:?}"),
    }
    let p = rx.rate.unwrap();
    assert_eq!(p.select(rate(6)).index, 6);
    assert_eq!(RatePolicy::new(McsPolicy::Fixed(rate(2))).select(rate(6)).index, 2);
}

#[test]
fn rssi_is_attributed_per_source_nonce() {
    let mut store = LinkSignalStore::new();
    let a = [0x02, 1, 1, 1, 1, 1];
    let b = [0x02, 2, 2, 2, 2, 2];
    let heard = |dbm: i8, at: u64| LinkSignals {
        rssi_dbm: Some(dbm),
        mcs_index: None,
        updated_ms: at,
    };
    store.set_source_link(a, heard(-40, 0));
    store.set_source_link(b, heard(-80, 0));
    assert_eq!(store.source_link(a).and_then(|s| s.rssi_dbm), Some(-40));
    assert_eq!(store.source_link(b).and_then(|s| s.rssi_dbm), Some(-80));
    assert!(store.source_link([0x02, 9, 9, 9, 9, 9]).is_none(), "unknown neighbour → no signal");
    assert_eq!(store.neighbours().len(), 2, "both neighbours visible in the per-source map");

    store.set_source_link(a, heard(-41, 9_000));
    assert_eq!(store.neighbours().len(), 2);
    assert_eq!(store.neighbour_count(10_000, 10_000), 2);
    assert_eq!(store.neighbour_count(10_000, 10_001), 1, "the silent one is no longer counted");
    store.set_link(7, heard(-60, 1));
    assert_eq!(store.link(7).unwrap().rssi_dbm, Some(-60));
    assert!(store.link(8).is_none());
}

#[test]
fn losses_are_the_holes() {
    let mut m = LossMeter::default();
    for s in [5u64, 6, 9, 9, 3, 4] {
        m.observe(Some(s));
    }
    m.observe(None);
    assert_eq!(m.counts(), (2, 7), "7 and 8 are missing");
    assert_eq!(m.take_counts(), (2, 7));
    assert_eq!(m.counts(), (0, 0));
    m.observe(Some(6));
    assert_eq!(m.counts(), (1, 1), "the number before the border still counts");
}

#[test]
fn medium_actuates_the_planned_rate_but_the_legacy_gate_outranks_it() {
    let mut p = RatePolicy::new(McsPolicy::Fixed(rate(1)));
    p.set_planned(Some(PlannedTx {
        mcs: Some(rate(7)),
        amsdu_msdus: None,
        link_fec_redundancy: None,
    }));
    let b = TxBearer { scheduled: true, rate: Some(p), fec: None, batched: false };
    let plan = b.inject(false, true, rate(0));
    assert_eq!(plan.route, TxRoute::At(rate(7)));
    assert!(plan.gated);
    let plan = b.inject(true, true, rate(0));
    assert_eq!(plan.route, TxRoute::AsIs, "a legacy-only receiver gets the basic rate");
    assert!(!plan.gated);
    let bare = TxBearer { scheduled: false, rate: None, fec: None, batched: false };
    assert_eq!(bare.inject(false, true, rate(3)).route, TxRoute::AsIs);
}

#[test]
fn medium_actuates_the_planned_rate_on_fec_coded_frames() {
    let mut p = RatePolicy::new(McsPolicy::Adaptive);
    let planned = |redundancy: Option<u16>| {
        Some(PlannedTx { mcs: Some(rate(5)), amsdu_msdus: None, link_fec_redundancy: redundancy })
    };
    p.set_planned(planned(None));
    let mut b = TxBearer { scheduled: false, rate: Some(p), fec: Some(2), batched: false };
    assert_eq!(b.inject(false, true, rate(0)).route, TxRoute::Coded(2, Some(rate(5))));
    assert_eq!(b.inject(false, false, rate(0)).route, TxRoute::At(rate(5)), "not worth it");
    p.set_planned(planned(Some(4)));
    b.rate = Some(p);
    assert_eq!(b.inject(false, true, rate(0)).route, TxRoute::Coded(4, Some(rate(5))));
    p.set_planned(planned(Some(0)));
    b.rate = Some(p);
    assert_eq!(b.inject(false, true, rate(0)).route, TxRoute::At(rate(5)), "no parity, no code");
    assert_eq!(p.planned_redundancy(), Some(0));
    let robust = b.inject_with_intent(true, false, true, rate(0));
    assert_eq!(robust.route, TxRoute::AsIs);
}

#[test]
fn medium_amsdu_batches_data_and_never_delays_robust_frames() {
    let (b, ignored) = TxBearer::configured(true, None, None, Some(AmsduCfg::new(4, 500)));
    assert!(!ignored);
    assert_eq!(b.inject(false, true, rate(0)).route, TxRoute::Bundled(None));
    let robust = b.inject_with_intent(true, false, true, rate(0));
    assert_eq!((robust.gated, robust.route), (false, TxRoute::AsIs));
    let (b, ignored) = TxBearer::configured(true, None, Some(1), Some(AmsduCfg::new(4, 500)));
    assert!(ignored && !b.batched, "a bearer that codes does not bundle");
    assert_eq!(b.inject(false, true, rate(0)).route, TxRoute::Coded(1, None));
}

#[test]
fn medium_sizes_the_amsdu_from_the_plan() {
    let cfg = AmsduCfg::new(8, 500);
    assert_eq!(AmsduCfg::new(0, 1).max_msdus, 1);
    assert_eq!((bundle_cap(cfg, None), bundle_cap(cfg, Some(3)), bundle_cap(cfg, Some(0))), (8, 3, 1));

    let mut p = RatePolicy::new(McsPolicy::Adaptive);
    let plan = |n: Option<u16>| {
        Some(PlannedTx { mcs: None, amsdu_msdus: n, link_fec_redundancy: None })
    };
    let route = |p: RatePolicy| {
        let (b, _) = TxBearer::configured(false, Some(p), None, Some(cfg));
        b.inject(false, true, rate(2)).route
    };
    assert_eq!(route(p), TxRoute::Bundled(Some(rate(2))));
    p.set_planned(plan(Some(0)));
    assert_eq!(route(p), TxRoute::At(rate(2)), "the plan can forbid bundling");
    p.set_planned(plan(Some(2)));
    assert_eq!(route(p), TxRoute::Bundled(Some(rate(2))));

    let mut batch = Batch::open(cfg, p.planned_amsdu_msdus(), None);
    assert!(batch.wants_more());
    batch.submit(Some(rate(4)));
    assert!(!batch.wants_more(), "the plan asked for two");
    assert_eq!(batch.rates, vec![None, Some(rate(4))]);
}

#[test]
fn a_bundle_keeps_the_rates_of_its_frames() {
    assert_eq!(bundle_rates(&vec![None, None]), None);
    assert_eq!(
        bundle_rates(&vec![Some(rate(1)), None, Some(rate(3)), None]),
        Some(vec![rate(1), rate(3), rate(3), rate(3)])
    );
}

#[test]
fn medium_face_unions_rx_and_fans_out_tx() {
    let mut f: FanOut<&str> = FanOut::new();
    f.note(Err("deaf"));
    f.note(Ok(()));
    f.note(Err("gone"));
    assert_eq!(f.finish("closed"), Ok(()), "any radio suffices");
    let mut f: FanOut<&str> = FanOut::new();
    f.note(Err("deaf"));
    f.note(Err("gone"));
    assert_eq!(f.finish("closed"), Err("gone"));
    assert_eq!(FanOut::<&str>::new().finish("closed"), Err("closed"));
}

#[test]
fn the_radios_own_capability_outranks_the_callers_assertion() {
    let asserted = ("5 GHz", vec![149]);
    let real = ("S1G", vec![1, 2]);
    assert_eq!(effective(None, asserted.clone()), asserted);
    assert_eq!(effective(Some(real.clone()), asserted), real, "the radio wins");
}

#[test]
fn small_numbers_of_the_medium() {
    assert_eq!(boot_seed(0, 0, 0), 0);
    assert_eq!(boot_seed(0x55, 3, 2), 0x55 ^ (3 << 32) ^ (2 * 0x9e37_79b9));
    assert_eq!((generation_size(0), generation_size(8)), (1, 8));
    let mut t = RefreshTimer::new();
    assert!(t.tick(3), "the first tick refreshes");
    assert!(!t.tick(3));
    assert!(!t.tick(3));
    assert!(t.tick(3));
    assert!(t.tick(0));
}
