use ndn_face_wireless::actuator::{RadioAllocation, TxParams};
use ndn_face_wireless::control::{
    active_set, activity_delta, arm_setting, demand_depth, is_report_name, on_egress, on_ingress,
    probe_first, telemetry, Feed, Lesson, RadioControl, RadioPlan, RadioReading, ReceptionReport,
    Refinement, CALIBRATION_PROBE_INTERVAL, DEFAULT_MAX_MCS, DEFAULT_MAX_POWER, UNHEARD_RSSI_DBM,
};
use ndn_face_wireless::keyed::PerRadio;

const W: u16 = 0;

fn params(mcs: Option<u8>) -> TxParams {
    TxParams {
        mcs,
        short_gi: false,
        vht: false,
        nss: None,
        stbc: false,
        ldpc: false,
        bw: None,
        csd: false,
        edcca_ignore: false,
        tx_power: None,
        tx_power_dbm: None,
        spreading_factor: None,
        coding_rate: None,
        link_fec_redundancy: None,
        amsdu_msdus: None,
    }
}

fn allocate(radio: u16, p: TxParams) -> RadioAllocation {
    RadioAllocation { radio, channel: Some(149), params: p }
}

fn plan(list: Vec<RadioAllocation>) -> RadioPlan {
    RadioPlan { suppress: list.is_empty(), allocations: list }
}

#[test]
fn frame_free_activity_maps_into_the_sense_bus() {
    // Counter 65530 → 10 is 16 frames, not a negative spike.
    assert_eq!(activity_delta(65530, 10), 16);
    assert_eq!(activity_delta(1000, 1000), 0);
    assert_eq!(activity_delta(0, 100), 100);
    assert_eq!(activity_delta(1000, 1050), 50);
}

#[test]
fn closed_loop_applies_decided_params() {
    let mut c = RadioControl::new();
    c.add_actuator(W);
    let out = c.actuate(&vec![plan(vec![allocate(W, params(Some(7)))])], &PerRadio::new());
    assert_eq!(out.len(), 1);
    assert_eq!(out[0].actuator, Some(0), "actuator applied");
    assert_eq!(out[0].alloc.params.mcs, Some(7));
    assert_eq!(out[0].charge_sf, None);
    assert!(c.last_tx.get(W).is_none(), "nothing learns, so nothing is remembered");
}

#[test]
fn relay_with_no_rank_suppresses_no_apply() {
    let mut c = RadioControl::new();
    c.add_actuator(W);
    let plans = vec![plan(vec![])];
    assert!(c.actuate(&plans, &PerRadio::new()).is_empty(), "suppressed ⇒ no actuator apply");
    assert_eq!(telemetry(&plans), (1, 1));
}

#[test]
fn satisfied_demand_stops_managing_the_object() {
    assert_eq!(active_set(vec![7], vec![1, 2]), vec![7], "live demand drives the plane");
    assert_eq!(active_set(vec![], vec![1, 2]), vec![1, 2], "else the manual set");
    assert!(active_set::<u8>(vec![], vec![]).is_empty());
}

#[test]
fn reception_report_closes_the_outbound_link_loop() {
    let a = RadioControl::new().with_node_id(1);
    let rep = ReceptionReport {
        node_id: 2,
        heard_neighbors: vec![(9, -80), (1, -55), (1, -20)],
        heard_snr: vec![(1, 21)],
    };
    let link = a.ingest_report(Some(&rep)).expect("taken in");
    assert_eq!(link.rssi, Some(-55), "the measured outbound link");
    assert_eq!(link.snr, Some(21));
    let b = RadioControl::new().with_node_id(3);
    let link = b.ingest_report(Some(&rep)).unwrap();
    assert_eq!((link.rssi, link.snr), (None, None), "it does not hear node 3");
    let unnumbered = RadioControl::new();
    let link = unnumbered.ingest_report(Some(&rep)).unwrap();
    assert_eq!((link.rssi, link.snr), (None, None));
    assert!(a.ingest_report(None).is_none(), "undecodable");
}

#[test]
fn outgoing_report_respects_cadence() {
    let mut c = RadioControl::new().with_node_id(1).with_report_interval(500);
    c.register_radio(W, 10);
    assert_eq!(c.outgoing_report(1_000), Some(1), "first report due");
    assert!(c.outgoing_report(1_200).is_none(), "within interval ⇒ none");
    assert_eq!(c.outgoing_report(1_600), Some(2), "after interval ⇒ due");
    assert!(c.outgoing_report(1_000).is_none(), "a clock that went back waits");
    assert_eq!(c.face_radio.get(&10), Some(&W));
}

#[test]
fn no_node_id_means_no_reports() {
    let mut c = RadioControl::new().with_report_interval(500);
    assert!(c.outgoing_report(1_000).is_none(), "node_id 0 ⇒ no reports");
    let mut c = RadioControl::new().with_node_id(4);
    assert!(c.outgoing_report(1_000).is_none(), "no interval ⇒ no reports");
}

#[test]
fn self_report_is_not_a_neighbour() {
    let c = RadioControl::new().with_node_id(7).with_report_interval(1);
    let own = ReceptionReport {
        node_id: 7,
        heard_neighbors: vec![(7, -10)],
        heard_snr: vec![],
    };
    assert!(c.ingest_report(Some(&own)).is_none(), "must not record self as a radio neighbour");
}

#[test]
fn broadcast_frame_reaches_ingest_through_on_ingress() {
    let name = vec![b"localhop".to_vec(), b"radio".to_vec(), b"report".to_vec(), b"2".to_vec()];
    assert!(is_report_name(&name), "on /localhop/radio/report");
    assert_eq!(on_ingress(false, &name, Some(5)), Feed::Report);
    assert_eq!(on_ingress(true, &name, Some(5)), Feed::Nothing, "an Interest tells nothing");
    let data = vec![b"localhop".to_vec(), b"radio".to_vec()];
    assert!(!is_report_name(&data));
    assert_eq!(on_ingress(false, &data, Some(5)), Feed::Data(5));
    assert_eq!(on_ingress(false, &data, None), Feed::Nothing);
    assert_eq!(on_egress(true, Some(5)), Feed::Interest(5));
    assert_eq!(on_egress(false, Some(5)), Feed::Nothing);
    assert_eq!(on_egress(true, None), Feed::Nothing);
    assert_eq!((demand_depth(&name), demand_depth(&vec![])), (1, 0));
}

#[test]
fn telemetry_snapshot_reflects_decisions() {
    let plans = vec![
        plan(vec![allocate(W, params(Some(3)))]),
        plan(vec![]),
        plan(vec![allocate(1, params(None))]),
    ];
    assert_eq!(telemetry(&plans), (3, 1));
    assert_eq!(telemetry(&vec![]), (0, 0));
}

#[test]
fn probing_occasionally_samples_the_next_rate_up() {
    let mut c = RadioControl::new_calibrated().with_probe_interval(2);
    let mut ticks = Vec::new();
    for _ in 0..4 {
        let mut plans = vec![plan(vec![allocate(W, params(Some(4)))])];
        let r = c.refine_plans(&mut plans, Some(7));
        ticks.push((r, plans[0].allocations[0].params.mcs));
    }
    assert_eq!(
        ticks,
        vec![
            (Refinement::Stand, Some(4)),
            (Refinement::Probe, Some(5)),
            (Refinement::Stand, Some(4)),
            (Refinement::Probe, Some(5)),
        ]
    );
}

#[test]
fn a_probe_keeps_to_its_bounds() {
    let probe = |mcs: Option<u8>, max: Option<u8>| {
        let mut plans = vec![plan(vec![allocate(W, params(mcs)), allocate(1, params(Some(1)))])];
        probe_first(&mut plans, max);
        assert_eq!(plans[0].allocations[1].params.mcs, Some(1), "only the first is probed");
        plans[0].allocations[0].params.mcs
    };
    assert_eq!(probe(Some(7), Some(7)), Some(7));
    assert_eq!(probe(Some(8), None), Some(9));
    assert_eq!(probe(Some(DEFAULT_MAX_MCS), None), Some(DEFAULT_MAX_MCS));
    assert_eq!(probe(None, Some(7)), None);
    let mut none: Vec<RadioPlan> = vec![];
    probe_first(&mut none, None);
    assert!(none.is_empty());
}

#[test]
fn the_bandit_goes_before_probing() {
    let mut c = RadioControl::new_bandit();
    c.played(W, 3);
    assert_eq!(c.refine(), Refinement::Bandit);
    assert!(c.last_arm.get(W).is_none(), "the arms of the last pass are forgotten");
    let mut c = RadioControl::new_calibrated();
    assert_eq!(c.probe_interval, CALIBRATION_PROBE_INTERVAL);
    let kinds: Vec<Refinement> = (0..10).map(|_| c.refine()).collect();
    assert_eq!(kinds.iter().filter(|k| **k == Refinement::Probe).count(), 1);
    assert_eq!(kinds[9], Refinement::Probe);
    let mut c = RadioControl::new();
    assert_eq!(c.refine(), Refinement::Stand);
    assert_eq!(c.probe_count, 0);
}

#[test]
fn what_is_unknown_of_a_radio_has_a_default() {
    let nothing =
        RadioReading { weakest_rssi: None, busy_pct: None, max_mcs: None, max_power: None };
    let a = arm_setting(nothing);
    assert_eq!((a.rssi, a.busy_pct), (UNHEARD_RSSI_DBM, 0));
    assert_eq!((a.max_mcs, a.max_power), (DEFAULT_MAX_MCS, DEFAULT_MAX_POWER));
    let known = RadioReading {
        weakest_rssi: Some(-55),
        busy_pct: Some(40),
        max_mcs: Some(7),
        max_power: Some(20),
    };
    let a = arm_setting(known);
    assert_eq!((a.rssi, a.busy_pct, a.max_mcs, a.max_power), (-55, 40, 7, 20));
}

#[test]
fn deliveries_teach_what_was_sent() {
    let mut weakest = PerRadio::new();
    weakest.put(W, -61i8);
    let lora = TxParams { spreading_factor: Some(9), ..params(None) };
    let plans = vec![
        plan(vec![allocate(W, params(Some(3))), allocate(2, lora)]),
        plan(vec![allocate(W, params(Some(5))), allocate(4, params(None))]),
    ];
    let mut c = RadioControl::new_calibrated();
    let out = c.actuate(&plans, &weakest);
    assert_eq!(out.len(), 4);
    let teaches: Vec<bool> = out.iter().map(|a| c.teaches(&a.alloc)).collect();
    assert_eq!(teaches, vec![true, true, true, false]);
    assert!(!RadioControl::new().teaches(&out[0].alloc), "nothing learns");
    assert_eq!((out[1].charge_sf, out[1].charge_cr), (Some(9), 1));
    assert!(out.iter().all(|a| a.actuator.is_none()));
    assert_eq!(
        c.observe_delivery(),
        vec![Lesson::Rate(5, -61), Lesson::Spreading(9, UNHEARD_RSSI_DBM)],
        "the last allocation of a radio stands"
    );

    let mut b = RadioControl::new_bandit();
    b.actuate(&plans, &weakest);
    assert!(b.observe_delivery().is_empty(), "no arm was played");
    b.played(W, 2);
    b.played(W, 6);
    assert_eq!(b.observe_delivery(), vec![Lesson::Arm(W, 6, params(Some(5)))]);
    assert!(RadioControl::new().observe_delivery().is_empty());
}

#[test]
fn the_first_actuator_of_a_radio_is_used() {
    let mut c = RadioControl::new();
    for r in [5u16, 3, 5] {
        c.add_actuator(r);
    }
    let cr = TxParams { spreading_factor: Some(7), coding_rate: Some(4), ..params(None) };
    let out = c.actuate(
        &vec![plan(vec![allocate(5, cr), allocate(3, params(None)), allocate(9, params(None))])],
        &PerRadio::new(),
    );
    let at: Vec<Option<usize>> = out.iter().map(|a| a.actuator).collect();
    assert_eq!(at, vec![Some(0), Some(1), None]);
    assert_eq!((out[0].charge_sf, out[0].charge_cr), (Some(7), 4));
}

#[test]
fn values_are_kept_per_radio() {
    let mut p: PerRadio<u8> = PerRadio::new();
    p.put(1, 10);
    p.put(2, 20);
    p.put(1, 11);
    assert_eq!((p.get(1), p.get(2), p.get(3)), (Some(11), Some(20), None));
    assert_eq!(p.items.len(), 2);
    p.clear();
    assert_eq!(p.get(1), None);
}
