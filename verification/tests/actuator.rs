use ndn_face_wireless::actuator::{
    next_stage, AppliedKnobs, Command, LibUsbActuator, MediumActuator, RadioAllocation, Stage,
    TxParams,
};

fn params() -> TxParams {
    TxParams {
        mcs: None,
        short_gi: false,
        vht: false,
        nss: None,
        stbc: false,
        ldpc: false,
        bw: None,
        csd: false,
        edcca_ignore: false,
        tx_power: None,
        tx_power_dbm: None,
        spreading_factor: None,
        coding_rate: None,
        link_fec_redundancy: None,
        amsdu_msdus: None,
    }
}

fn to_radio(p: TxParams) -> RadioAllocation {
    RadioAllocation { radio: 0, channel: None, params: p }
}

/// Runs a whole pass; `works` says whether a command succeeds. Returns what was sent.
fn pass(act: &mut MediumActuator, a: &RadioAllocation, works: fn(&Command) -> bool) -> Vec<Command> {
    let mut sent = Vec::new();
    let mut at = Some(Stage::Rate);
    while let Some(from) = at {
        match act.apply(a, from) {
            Some((s, c)) => {
                sent.push(c);
                at = act.report(s, c, works(&c));
            }
            None => at = None,
        }
    }
    sent
}

fn all_work(_: &Command) -> bool {
    true
}

fn no_dbm(c: &Command) -> bool {
    !matches!(c, Command::SetPowerDbm(_))
}

fn powers(list: &[Command]) -> Vec<Command> {
    list.iter()
        .filter(|c| matches!(c, Command::SetPowerDbm(_) | Command::SetPower(_)))
        .copied()
        .collect()
}

#[test]
fn dbm_is_preferred_over_the_index_scale() {
    let mut act = MediumActuator::new(0, true);
    let p = TxParams { tx_power_dbm: Some(14), tx_power: Some(40), ..params() };
    let sent = pass(&mut act, &to_radio(p), all_work);
    assert_eq!(powers(&sent), vec![Command::SetPowerDbm(14)], "the index knob is left alone");
}

#[test]
fn falls_back_to_the_index_when_dbm_is_unsupported() {
    let mut act = MediumActuator::new(0, true);
    let p = TxParams { tx_power_dbm: Some(14), tx_power: Some(40), ..params() };
    let sent = pass(&mut act, &to_radio(p), no_dbm);
    assert_eq!(powers(&sent), vec![Command::SetPowerDbm(14), Command::SetPower(40)]);
    assert_eq!((act.last.power_dbm, act.last.power), (None, Some(40)));
}

#[test]
fn repeated_identical_power_is_pushed_once() {
    let mut act = MediumActuator::new(0, true);
    let p = TxParams { tx_power_dbm: Some(20), ..params() };
    let a = to_radio(p);
    assert_eq!(powers(&pass(&mut act, &a, all_work)), vec![Command::SetPowerDbm(20)]);
    assert!(powers(&pass(&mut act, &a, all_work)).is_empty());
}

#[test]
fn a_clamped_write_is_not_retried_forever() {
    let mut act = MediumActuator::new(0, true);
    let p = TxParams { tx_power_dbm: Some(30), ..params() };
    let a = to_radio(p);
    let mut calls = 0;
    for _ in 0..3 {
        // The firmware grants 27 and says so; the request counts as answered.
        calls += powers(&pass(&mut act, &a, all_work)).len();
    }
    assert_eq!(calls, 1, "a firmware clamp must not cause a write every tick");
}

#[test]
fn a_pass_turns_every_knob_in_order() {
    let mut act = MediumActuator::new(3, true).with_fec_redundancy(2);
    assert_eq!(act.radio_id(), 3);
    let p = TxParams {
        mcs: Some(5),
        ldpc: true,
        bw: Some(2),
        csd: true,
        tx_power: Some(9),
        spreading_factor: Some(7),
        coding_rate: Some(1),
        link_fec_redundancy: Some(1),
        ..params()
    };
    let a = RadioAllocation { radio: 3, channel: Some(149), params: p };
    let sent = pass(&mut act, &a, all_work);
    assert_eq!(sent.len(), 8);
    match sent[0] {
        Command::SetRate(d) => {
            assert_eq!((d.index, d.nss, d.ldpc, d.vht), (5, 1, true, false));
        }
        c => panic!("{c:?}"),
    }
    assert_eq!(
        sent[1..],
        [
            Command::StoreParity(2),
            Command::SetChannel(149, 2),
            Command::SetCsd(true),
            Command::SetEdccaIgnore(false),
            Command::SetPower(9),
            Command::SetSpreadingFactor(7),
            Command::SetCodingRate(1),
        ]
    );
    // Only rate and parity are pushed again where nothing changed.
    let again = pass(&mut act, &a, all_work);
    assert_eq!(again.len(), 2);
    // A new bandwidth is a new tuning.
    let wider = RadioAllocation { params: TxParams { bw: Some(1), ..p }, ..a };
    assert!(pass(&mut act, &wider, all_work).contains(&Command::SetChannel(149, 1)));
}

#[test]
fn a_radio_without_knobs_gets_its_rate() {
    let mut act = MediumActuator::new(0, false);
    let p = TxParams { mcs: Some(1), tx_power: Some(9), csd: true, ..params() };
    let a = RadioAllocation { radio: 0, channel: Some(1), params: p };
    assert!(matches!(pass(&mut act, &a, all_work)[..], [Command::SetRate(_)]));
    assert!(pass(&mut act, &to_radio(params()), all_work).is_empty());
}

#[test]
fn a_failed_knob_ends_the_pass_and_is_tried_again() {
    let mut act = MediumActuator::new(0, true);
    let a = RadioAllocation { radio: 0, channel: Some(6), params: params() };
    let sent = pass(&mut act, &a, |c| !matches!(c, Command::SetChannel(..)));
    assert_eq!(sent, vec![Command::SetChannel(6, 0)]);
    assert!(act.last == AppliedKnobs::default());
    let sent = pass(&mut act, &a, all_work);
    assert_eq!(sent[0], Command::SetChannel(6, 0));
}

#[test]
fn the_usb_actuator_hands_its_plan_on() {
    let mut act = LibUsbActuator::new(8);
    assert_eq!(act.radio_id(), 8);
    let p = TxParams { tx_power: Some(30), mcs: Some(4), tx_power_dbm: Some(3), ..params() };
    let a = RadioAllocation { radio: 8, channel: Some(36), params: p };
    let mut sent = Vec::new();
    let mut at = Some(Stage::Rate);
    while let Some(from) = at {
        at = match act.apply(&a, from) {
            Some((s, c)) => {
                sent.push(c);
                act.report(s, c, true)
            }
            None => None,
        };
    }
    assert_eq!(
        sent,
        vec![
            Command::SetChannel(36, 0),
            Command::SetCsd(false),
            Command::SetEdccaIgnore(false),
            Command::SetPower(30),
            Command::StorePlan(p),
        ]
    );
}

#[test]
fn the_stages_come_to_an_end() {
    let mut s = Stage::Rate;
    let mut n = 0;
    while s != Stage::Done {
        s = next_stage(s);
        n += 1;
    }
    assert_eq!(n, 10);
    assert_eq!(next_stage(s), Stage::Done);
}
