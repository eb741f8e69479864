//! The radio control plane: when it reports, what it takes from reports and
//! forwarding events, how it refines a plan, and what it brings onto which radio.

use std::collections::HashMap;

use vstd::prelude::*;

use crate::actuator::{RadioAllocation, TxParams};
use crate::groups::same_bytes;
use crate::keyed;
use crate::keyed::PerRadio;

verus! {

broadcast use vstd::std_specs::hash::group_hash_axioms;

/// The signal strength taken where none was heard, in dBm.
pub const UNHEARD_RSSI_DBM: i8 = -90;

/// The highest rate index taken of a radio that declares none.
pub const DEFAULT_MAX_MCS: u8 = 9;

/// The highest power index taken of a radio that declares none.
pub const DEFAULT_MAX_POWER: u8 = 63;

/// How often a calibrating plane probes the next rate up.
pub const CALIBRATION_PROBE_INTERVAL: u32 = 10;

/// A payload size that LoRa airtime is charged for.
pub const NOMINAL_LORA_PAYLOAD: usize = 40;

/// How long a neighbour's frames count for the density, in milliseconds.
pub const NONCE_FRESH_MS: u64 = 10_000;

/// What a radio last sent at.
#[derive(Debug, Clone, Copy, PartialEq, Eq, Structural)]
pub struct TxRecord {
    /// The weakest receiver's signal, in dBm.
    pub rssi: i8,
    /// The parameters.
    pub params: TxParams,
}

/// A decided plan for one managed object.
pub struct RadioPlan {
    /// Nothing is sent.
    pub suppress: bool,
    /// What each radio does.
    pub allocations: Vec<RadioAllocation>,
}

/// What a delivery outcome teaches, and whom.
#[derive(Debug, Clone, Copy, PartialEq, Eq, Structural)]
pub enum Lesson {
    /// The rate calibrator: a rate index and the signal it was sent over.
    Rate(u8, i8),
    /// The spreading-factor calibrator: a factor and the signal.
    Spreading(u8, i8),
    /// The bandit: a radio, the arm that was played and its parameters.
    Arm(u16, usize, TxParams),
}

/// What a forwarding event tells the demand shadow.
#[derive(Debug, Clone, Copy, PartialEq, Eq, Structural)]
pub enum Feed {
    /// Nothing.
    Nothing,
    /// Demand for a prefix.
    Interest(u64),
    /// Demand for a prefix was met.
    Data(u64),
    /// A neighbour's reception report.
    Report,
}

/// A neighbour's reception report.
pub struct ReceptionReport {
    /// Who reports.
    pub node_id: u64,
    /// Whom it hears, and how strongly in dBm.
    pub heard_neighbors: Vec<(u64, i8)>,
    /// Whom it hears, and how cleanly in dB.
    pub heard_snr: Vec<(u64, i8)>,
}

/// What a report tells of the way out to its sender.
#[derive(Debug, Clone, Copy, PartialEq, Eq, Structural)]
pub struct OutboundLink {
    /// How strongly it hears this node.
    pub rssi: Option<i8>,
    /// How cleanly it hears this node.
    pub snr: Option<i8>,
}

/// What applying an allocation takes besides the actuator's pass.
#[derive(Debug, Clone, Copy, PartialEq, Eq, Structural)]
pub struct Actuation {
    /// The allocation.
    pub alloc: RadioAllocation,
    /// The spreading factor to charge airtime for, on a LoRa radio.
    pub charge_sf: Option<u8>,
    /// The coding rate to charge it at.
    pub charge_cr: u8,
    /// Which actuator gets the allocation.
    pub actuator: Option<usize>,
}

/// How a plan is refined.
#[derive(Debug, Clone, Copy, PartialEq, Eq, Structural)]
pub enum Refinement {
    /// The bandit plays an arm on each plan's first allocation.
    Bandit,
    /// The first allocation probes the next rate up.
    Probe,
    /// The plans stand.
    Stand,
}

/// The control plane of a node's radios.
pub struct RadioControl {
    /// This node's number in reports, or 0 for none.
    pub node_id: u64,
    /// How often a report goes out, in milliseconds, or 0 for never.
    pub report_interval_ms: u64,
    /// When the last report went out.
    pub last_report_ms: Option<u64>,
    /// The running number of the last report.
    pub report_seq: u32,
    /// The rate thresholds are learned.
    pub calibrates: bool,
    /// The spreading-factor thresholds are learned.
    pub calibrates_sf: bool,
    /// A bandit learns the joint operating point.
    pub bandit: bool,
    /// How often the next rate up is probed, or 0 for never.
    pub probe_interval: u32,
    /// Passes since the start.
    pub probe_count: u32,
    /// What each radio last sent at.
    pub last_tx: PerRadio<TxRecord>,
    /// The arm last played on each radio.
    pub last_arm: PerRadio<usize>,
    /// The radio of each actuator.
    pub actuators: Vec<u16>,
    /// The radio that each face feeds.
    pub face_radio: HashMap<u64, u16>,
}

// ---------------------------------------------------------------------------
// Names
// ---------------------------------------------------------------------------

/// `localhop`.
pub const LOCALHOP: [u8; 8] = [0x6c, 0x6f, 0x63, 0x61, 0x6c, 0x68, 0x6f, 0x70];

/// `radio`.
pub const RADIO: [u8; 5] = [0x72, 0x61, 0x64, 0x69, 0x6f];

/// `report`.
pub const REPORT: [u8; 6] = [0x72, 0x65, 0x70, 0x6f, 0x72, 0x74];

/// The name is under `/localhop/radio/report`.
pub open spec fn names_a_report(components: Seq<Vec<u8>>) -> bool {
    &&& components.len() >= 3
    &&& components[0]@ == LOCALHOP@
    &&& components[1]@ == RADIO@
    &&& components[2]@ == REPORT@
}

/// Is the name one that reception reports go out under?
pub fn is_report_name(components: &Vec<Vec<u8>>) -> (r: bool)
    ensures
        r == names_a_report(components@),
{
    components.len() >= 3 && same_bytes(components[0].as_slice(), LOCALHOP.as_slice())
        && same_bytes(components[1].as_slice(), RADIO.as_slice()) && same_bytes(
        components[2].as_slice(),
        REPORT.as_slice(),
    )
}

/// How many leading components the demand for a name is kept under where the host
/// does not say: the first, where there is one.
pub fn demand_depth(components: &Vec<Vec<u8>>) -> (n: usize)
    ensures
        n == (if components@.len() == 0 {
            0
        } else {
            1int
        }),
{
    if components.len() == 0 {
        0
    } else {
        1
    }
}

/// What a frame going out tells: an Interest is demand, under its key where it has
/// one.
pub fn on_egress(is_interest: bool, key: Option<u64>) -> (f: Feed)
    ensures
        f == (match key {
            Some(k) if is_interest => Feed::Interest(k),
            _ => Feed::Nothing,
        }),
{
    match key {
        Some(k) => if is_interest {
            Feed::Interest(k)
        } else {
            Feed::Nothing
        },
        None => Feed::Nothing,
    }
}

/// What a frame coming in tells: a report, or that demand was met. An Interest
/// tells nothing.
pub fn on_ingress(is_interest: bool, components: &Vec<Vec<u8>>, key: Option<u64>) -> (f: Feed)
    ensures
        f == (if is_interest {
            Feed::Nothing
        } else if names_a_report(components@) {
            Feed::Report
        } else {
            match key {
                Some(k) => Feed::Data(k),
                None => Feed::Nothing,
            }
        }),
{
    if is_interest {
        return Feed::Nothing;
    }
    if is_report_name(components) {
        return Feed::Report;
    }
    match key {
        Some(k) => Feed::Data(k),
        None => Feed::Nothing,
    }
}

/// The objects to decide for: those that live demand shows, else those set by hand.
pub fn active_set<T>(live: Vec<T>, manual: Vec<T>) -> (r: Vec<T>)
    ensures
        r == (if live@.len() == 0 {
            manual
        } else {
            live
        }),
{
    if live.len() == 0 {
        manual
    } else {
        live
    }
}

// ---------------------------------------------------------------------------
// Reports
// ---------------------------------------------------------------------------

/// What the first entry for a node says, counted from `from`.
pub open spec fn entry_for(list: Seq<(u64, i8)>, node: u64, from: int) -> Option<i8>
    decreases list.len() - from,
{
    if from < 0 || from >= list.len() {
        None
    } else if list[from].0 == node {
        Some(list[from].1)
    } else {
        entry_for(list, node, from + 1)
    }
}

fn find_entry(list: &Vec<(u64, i8)>, node: u64) -> (r: Option<i8>)
    ensures
        r == entry_for(list@, node, 0),
{
    let mut i: usize = 0;
    while i < list.len()
        invariant
            i <= list.len(),
            entry_for(list@, node, 0) == entry_for(list@, node, i as int),
        decreases list.len() - i,
    {
        if list[i].0 == node {
            return Some(list[i].1);
        }
        i = i + 1;
    }
    None
}

// ---------------------------------------------------------------------------
// Lessons
// ---------------------------------------------------------------------------

/// What the first `n` records teach the rate calibrator.
pub open spec fn rate_lessons(records: Seq<keyed::Entry<TxRecord>>, n: int) -> Seq<Lesson>
    decreases n,
{
    if n <= 0 {
        Seq::empty()
    } else {
        let r = records[n - 1].value;
        match r.params.mcs {
            Some(mcs) => rate_lessons(records, n - 1).push(Lesson::Rate(mcs, r.rssi)),
            None => rate_lessons(records, n - 1),
        }
    }
}

/// What the first `n` records teach the spreading-factor calibrator.
pub open spec fn spreading_lessons(records: Seq<keyed::Entry<TxRecord>>, n: int) -> Seq<Lesson>
    decreases n,
{
    if n <= 0 {
        Seq::empty()
    } else {
        let r = records[n - 1].value;
        match r.params.spreading_factor {
            Some(sf) => spreading_lessons(records, n - 1).push(Lesson::Spreading(sf, r.rssi)),
            None => spreading_lessons(records, n - 1),
        }
    }
}

/// What the first `n` records teach the bandit: those of radios on which it played.
pub open spec fn arm_lessons(
    records: Seq<keyed::Entry<TxRecord>>,
    arms: Seq<keyed::Entry<usize>>,
    n: int,
) -> Seq<Lesson>
    decreases n,
{
    if n <= 0 {
        Seq::empty()
    } else {
        let e = records[n - 1];
        match keyed::value_of(arms, e.radio) {
            Some(arm) => arm_lessons(records, arms, n - 1).push(
                Lesson::Arm(e.radio, arm, e.value.params),
            ),
            None => arm_lessons(records, arms, n - 1),
        }
    }
}

/// Where a radio's actuator stands, counted from `from`.
pub open spec fn actuator_of(actuators: Seq<u16>, radio: u16, from: int) -> Option<usize>
    decreases actuators.len() - from,
{
    if from < 0 || from >= actuators.len() {
        None
    } else if actuators[from] == radio {
        Some(from as usize)
    } else {
        actuator_of(actuators, radio, from + 1)
    }
}

/// What applying an allocation takes.
pub open spec fn actuation_of(actuators: Seq<u16>, alloc: RadioAllocation) -> Actuation {
    Actuation {
        alloc,
        charge_sf: alloc.params.spreading_factor,
        charge_cr: match alloc.params.coding_rate {
            Some(cr) => cr,
            None => 1u8,
        },
        actuator: actuator_of(actuators, alloc.radio, 0),
    }
}

/// What applying these allocations takes.
pub open spec fn actuations(
    actuators: Seq<u16>,
    allocs: Seq<RadioAllocation>,
) -> Seq<Actuation> {
    allocs.map_values(|a: RadioAllocation| actuation_of(actuators, a))
}

/// The allocations of the first `n` plans, in order.
pub open spec fn allocations_of(plans: Seq<RadioPlan>, n: int) -> Seq<RadioAllocation>
    decreases n,
{
    if n <= 0 {
        Seq::empty()
    } else {
        allocations_of(plans, n - 1) + plans[n - 1].allocations@
    }
}

/// The allocation sends at something that a learner can learn from.
pub open spec fn is_instructive(alloc: RadioAllocation) -> bool {
    alloc.params.mcs is Some || alloc.params.spreading_factor is Some
}

/// What is remembered of an allocation.
pub open spec fn record_of(
    alloc: RadioAllocation,
    weakest: Seq<keyed::Entry<i8>>,
) -> TxRecord {
    TxRecord {
        rssi: match keyed::value_of(weakest, alloc.radio) {
            Some(r) => r,
            None => UNHEARD_RSSI_DBM,
        },
        params: alloc.params,
    }
}

/// What the radios last sent at, after an allocation.
pub open spec fn tx_noted(
    items: Seq<keyed::Entry<TxRecord>>,
    learns: bool,
    alloc: RadioAllocation,
    weakest: Seq<keyed::Entry<i8>>,
) -> Seq<keyed::Entry<TxRecord>> {
    if learns && is_instructive(alloc) {
        keyed::with_value(items, alloc.radio, record_of(alloc, weakest))
    } else {
        items
    }
}

/// What the radios last sent at, after these allocations.
pub open spec fn tx_after(
    items: Seq<keyed::Entry<TxRecord>>,
    learns: bool,
    allocs: Seq<RadioAllocation>,
    weakest: Seq<keyed::Entry<i8>>,
) -> Seq<keyed::Entry<TxRecord>>
    decreases allocs.len(),
{
    if allocs.len() == 0 {
        items
    } else {
        tx_noted(
            tx_after(items, learns, allocs.drop_last(), weakest),
            learns,
            allocs.last(),
            weakest,
        )
    }
}

/// The parameters with the rate moved to the next one up, where there is a rate
/// below the radio's highest.
pub open spec fn probed(params: TxParams, max: Option<u8>) -> TxParams {
    let top = match max {
        Some(m) => m,
        None => DEFAULT_MAX_MCS,
    };
    match params.mcs {
        Some(mcs) if mcs < top => TxParams { mcs: Some((mcs + 1) as u8), ..params },
        _ => params,
    }
}

impl RadioControl {
    /// No radio stands twice in what was sent and played.
    pub open spec fn wf(&self) -> bool {
        self.last_tx.wf() && self.last_arm.wf()
    }

    /// Something learns from deliveries.
    pub open spec fn learns(&self) -> bool {
        self.calibrates || self.calibrates_sf || self.bandit
    }

    /// Nothing changed but the reports.
    pub open spec fn same_but_reports(&self, other: Self) -> bool {
        &&& self.node_id == other.node_id
        &&& self.report_interval_ms == other.report_interval_ms
        &&& self.calibrates == other.calibrates
        &&& self.calibrates_sf == other.calibrates_sf
        &&& self.bandit == other.bandit
        &&& self.probe_interval == other.probe_interval
        &&& self.probe_count == other.probe_count
        &&& self.last_tx == other.last_tx
        &&& self.last_arm == other.last_arm
        &&& self.actuators == other.actuators
        &&& self.face_radio == other.face_radio
    }

    /// A report is due.
    pub open spec fn report_due(&self, now_ms: u64) -> bool {
        &&& self.report_interval_ms != 0
        &&& self.node_id != 0
        &&& self.last_report_ms matches Some(t) ==> now_ms - t >= self.report_interval_ms
    }

    /// Probing comes round on this plane: it calibrates, and no bandit plays.
    pub open spec fn probes(&self) -> bool {
        !self.bandit && self.calibrates && self.probe_interval > 0
    }

    /// The passes counted after this one.
    pub open spec fn next_probe_count(&self) -> u32 {
        if self.probes() {
            self.probe_count.wrapping_add(1)
        } else {
            self.probe_count
        }
    }

    /// How the plans of this pass are refined.
    pub open spec fn refinement(&self) -> Refinement {
        if self.bandit {
            Refinement::Bandit
        } else if self.probes() && self.next_probe_count() as int % self.probe_interval as int
            == 0 {
            Refinement::Probe
        } else {
            Refinement::Stand
        }
    }

    /// A plane that learns nothing and reports nothing.
    pub fn new() -> (c: Self)
        ensures
            c.wf(),
            c.node_id == 0,
            c.report_interval_ms == 0,
            c.last_report_ms is None,
            c.report_seq == 0,
            !c.learns(),
            c.probe_interval == 0,
            c.probe_count == 0,
            c.last_tx.items@.len() == 0,
            c.last_arm.items@.len() == 0,
            c.actuators@.len() == 0,
            c.face_radio@ == Map::<u64, u16>::empty(),
    {
        RadioControl {
            node_id: 0,
            report_interval_ms: 0,
            last_report_ms: None,
            report_seq: 0,
            calibrates: false,
            calibrates_sf: false,
            bandit: false,
            probe_interval: 0,
            probe_count: 0,
            last_tx: PerRadio::new(),
            last_arm: PerRadio::new(),
            actuators: Vec::new(),
            face_radio: HashMap::new(),
        }
    }

    /// A plane that learns its thresholds from deliveries, and probes.
    pub fn new_calibrated() -> (c: Self)
        ensures
            c.wf(),
            c.calibrates,
            c.calibrates_sf,
            !c.bandit,
            c.probe_interval == CALIBRATION_PROBE_INTERVAL,
            c.probe_count == 0,
            c.node_id == 0,
            c.report_interval_ms == 0,
            c.last_report_ms is None,
            c.report_seq == 0,
            c.last_tx.items@.len() == 0,
            c.last_arm.items@.len() == 0,
            c.actuators@.len() == 0,
            c.face_radio@ == Map::<u64, u16>::empty(),
    {
        let c = RadioControl::new();
        RadioControl {
            calibrates: true,
            calibrates_sf: true,
            probe_interval: CALIBRATION_PROBE_INTERVAL,
            ..c
        }
    }

    /// A plane whose bandit learns the joint operating point.
    pub fn new_bandit() -> (c: Self)
        ensures
            c.wf(),
            c.bandit,
            !c.calibrates,
            !c.calibrates_sf,
            c.probe_interval == 0,
            c.probe_count == 0,
            c.node_id == 0,
            c.report_interval_ms == 0,
            c.last_report_ms is None,
            c.report_seq == 0,
            c.last_tx.items@.len() == 0,
            c.last_arm.items@.len() == 0,
            c.actuators@.len() == 0,
            c.face_radio@ == Map::<u64, u16>::empty(),
    {
        let c = RadioControl::new();
        RadioControl { bandit: true, ..c }
    }

    /// Names this node in reports.
    pub fn with_node_id(self, node_id: u64) -> (c: Self)
        ensures
            c == (RadioControl { node_id, ..self }),
    {
        RadioControl { node_id, ..self }
    }

    /// Sets how often a report goes out.
    pub fn with_report_interval(self, ms: u64) -> (c: Self)
        ensures
            c == (RadioControl { report_interval_ms: ms, ..self }),
    {
        RadioControl { report_interval_ms: ms, ..self }
    }

    /// Sets how often the next rate up is probed.
    pub fn with_probe_interval(self, interval: u32) -> (c: Self)
        ensures
            c == (RadioControl { probe_interval: interval, ..self }),
    {
        RadioControl { probe_interval: interval, ..self }
    }

    /// Declares which radio a face feeds.
    pub fn register_radio(&mut self, radio: u16, face: u64)
        ensures
            final(self).face_radio@ == old(self).face_radio@.insert(face, radio),
            *final(self) == (RadioControl { face_radio: final(self).face_radio, ..*old(self) }),
    {
        self.face_radio.insert(face, radio);
    }

    /// Adds an actuator for a radio.
    pub fn add_actuator(&mut self, radio: u16)
        ensures
            final(self).actuators@ == old(self).actuators@.push(radio),
            *final(self) == (RadioControl { actuators: final(self).actuators, ..*old(self) }),
    {
        self.actuators.push(radio);
    }

    /// The running number of the report to send now, where one is due.
    pub fn outgoing_report(&mut self, now_ms: u64) -> (seq: Option<u32>)
        ensures
            final(self).same_but_reports(*old(self)),
            old(self).report_due(now_ms) ==> {
                &&& seq == Some(old(self).report_seq.wrapping_add(1))
                &&& final(self).report_seq == old(self).report_seq.wrapping_add(1)
                &&& final(self).last_report_ms == Some(now_ms)
            },
            !old(self).report_due(now_ms) ==> seq is None && *final(self) == *old(self),
    {
        if self.report_interval_ms == 0 || self.node_id == 0 {
            return None;
        }
        if let Some(t) = self.last_report_ms {
            if now_ms.saturating_sub(t) < self.report_interval_ms {
                return None;
            }
        }
        self.last_report_ms = Some(now_ms);
        self.report_seq = self.report_seq.wrapping_add(1);
        Some(self.report_seq)
    }

    /// What a received report tells: nothing where it could not be decoded or is
    /// this node's own, else how its sender hears this node.
    pub fn ingest_report(&self, report: Option<&ReceptionReport>) -> (r: Option<OutboundLink>)
        ensures
            match report {
                None => r is None,
                Some(rep) => if self.node_id != 0 && rep.node_id == self.node_id {
                    r is None
                } else if self.node_id == 0 {
                    r == Some(OutboundLink { rssi: None, snr: None })
                } else {
                    r == Some(
                        OutboundLink {
                            rssi: entry_for(rep.heard_neighbors@, self.node_id, 0),
                            snr: entry_for(rep.heard_snr@, self.node_id, 0),
                        },
                    )
                },
            },
    {
        let rep: &ReceptionReport = match report {
            None => {
                return None;
            },
            Some(rep) => rep,
        };
        if self.node_id != 0 && rep.node_id == self.node_id {
            return None;
        }
        if self.node_id == 0 {
            return Some(OutboundLink { rssi: None, snr: None });
        }
        Some(
            OutboundLink {
                rssi: find_entry(&rep.heard_neighbors, self.node_id),
                snr: find_entry(&rep.heard_snr, self.node_id),
            },
        )
    }

    /// What a delivery outcome teaches, attributed to what each radio last sent at.
    pub fn observe_delivery(&self) -> (out: Vec<Lesson>)
        ensures
            out@ == (if self.calibrates {
                rate_lessons(self.last_tx.items@, self.last_tx.items@.len() as int)
            } else {
                Seq::empty()
            }) + (if self.calibrates_sf {
                spreading_lessons(self.last_tx.items@, self.last_tx.items@.len() as int)
            } else {
                Seq::empty()
            }) + (if self.bandit {
                arm_lessons(
                    self.last_tx.items@,
                    self.last_arm.items@,
                    self.last_tx.items@.len() as int,
                )
            } else {
                Seq::empty()
            }),
    {
        let mut out: Vec<Lesson> = Vec::new();
        let ghost records = self.last_tx.items@;
        let ghost all = self.last_tx.items@.len() as int;
        if self.calibrates {
            let mut i: usize = 0;
            while i < self.last_tx.items.len()
                invariant
                    i <= self.last_tx.items.len(),
                    records == self.last_tx.items@,
                    out@ == rate_lessons(records, i as int),
                decreases self.last_tx.items.len() - i,
            {
                let r: TxRecord = self.last_tx.items[i].value;
                if let Some(mcs) = r.params.mcs {
                    out.push(Lesson::Rate(mcs, r.rssi));
                }
                i = i + 1;
            }
        }
        let ghost first = out@;
        if self.calibrates_sf {
            let mut i: usize = 0;
            assert(out@ =~= first + spreading_lessons(records, 0));
            while i < self.last_tx.items.len()
                invariant
                    i <= self.last_tx.items.len(),
                    records == self.last_tx.items@,
                    out@ == first + spreading_lessons(records, i as int),
                decreases self.last_tx.items.len() - i,
            {
                let r: TxRecord = self.last_tx.items[i].value;
                if let Some(sf) = r.params.spreading_factor {
                    out.push(Lesson::Spreading(sf, r.rssi));
                    assert(out@ =~= first + spreading_lessons(records, i as int + 1));
                }
                i = i + 1;
            }
        }
        let ghost second = out@;
        if self.bandit {
            let mut i: usize = 0;
            assert(out@ =~= second + arm_lessons(records, self.last_arm.items@, 0));
            while i < self.last_tx.items.len()
                invariant
                    i <= self.last_tx.items.len(),
                    records == self.last_tx.items@,
                    out@ == second + arm_lessons(records, self.last_arm.items@, i as int),
                decreases self.last_tx.items.len() - i,
            {
                let radio: u16 = self.last_tx.items[i].radio;
                let params: TxParams = self.last_tx.items[i].value.params;
                if let Some(arm) = self.last_arm.get(radio) {
                    out.push(Lesson::Arm(radio, arm, params));
                    assert(out@ =~= second + arm_lessons(
                        records,
                        self.last_arm.items@,
                        i as int + 1,
                    ));
                }
                i = i + 1;
            }
        }
        proof {
            let a = if self.calibrates {
                rate_lessons(records, all)
            } else {
                Seq::empty()
            };
            let b = if self.calibrates_sf {
                spreading_lessons(records, all)
            } else {
                Seq::empty()
            };
            let c = if self.bandit {
                arm_lessons(records, self.last_arm.items@, all)
            } else {
                Seq::empty()
            };
            assert(first =~= a);
            assert(second =~= a + b);
            assert(out@ =~= a + b + c);
        }
        out
    }

    /// Is there something to learn from what is sent at an allocation?
    pub fn teaches(&self, alloc: &RadioAllocation) -> (r: bool)
        ensures
            r == (self.learns() && is_instructive(*alloc)),
    {
        (self.calibrates || self.calibrates_sf || self.bandit) && (alloc.params.mcs.is_some()
            || alloc.params.spreading_factor.is_some())
    }

    /// Prepares an allocation for its radio: what it sends at is remembered where
    /// something learns from it, LoRa airtime is charged, and the radio's first
    /// actuator gets it. `weakest` holds the weakest signal heard on each radio.
    fn actuate_one(&mut self, alloc: &RadioAllocation, weakest: &PerRadio<i8>) -> (a: Actuation)
        requires
            old(self).wf(),
        ensures
            final(self).wf(),
            a == actuation_of(old(self).actuators@, *alloc),
            *final(self) == (RadioControl { last_tx: final(self).last_tx, ..*old(self) }),
            final(self).last_tx.items@ == tx_noted(
                old(self).last_tx.items@,
                old(self).learns(),
                *alloc,
                weakest.items@,
            ),
    {
        if self.teaches(alloc) {
            let rssi: i8 = match weakest.get(alloc.radio) {
                Some(r) => r,
                None => UNHEARD_RSSI_DBM,
            };
            self.last_tx.put(alloc.radio, TxRecord { rssi, params: alloc.params });
        }
        let charge_cr: u8 = match alloc.params.coding_rate {
            Some(cr) => cr,
            None => 1,
        };
        let mut i: usize = 0;
        let mut actuator: Option<usize> = None;
        while i < self.actuators.len() && actuator.is_none()
            invariant
                i <= self.actuators.len(),
                actuator is None ==> actuator_of(self.actuators@, alloc.radio, 0)
                    == actuator_of(self.actuators@, alloc.radio, i as int),
                actuator is Some ==> actuator == actuator_of(self.actuators@, alloc.radio, 0),
            decreases self.actuators.len() - i + (if actuator is None { 1int } else { 0int }),
        {
            if self.actuators[i] == alloc.radio {
                actuator = Some(i);
            } else {
                i = i + 1;
            }
        }
        Actuation {
            alloc: *alloc,
            charge_sf: alloc.params.spreading_factor,
            charge_cr,
            actuator,
        }
    }

    /// Prepares the plans of a pass for their radios, allocation by allocation, in
    /// order. Where several target one radio, the last one stands.
    pub fn actuate(&mut self, plans: &Vec<RadioPlan>, weakest: &PerRadio<i8>) -> (out: Vec<
        Actuation,
    >)
        requires
            old(self).wf(),
        ensures
            final(self).wf(),
            *final(self) == (RadioControl { last_tx: final(self).last_tx, ..*old(self) }),
            out@ == actuations(
                old(self).actuators@,
                allocations_of(plans@, plans@.len() as int),
            ),
            final(self).last_tx.items@ == tx_after(
                old(self).last_tx.items@,
                old(self).learns(),
                allocations_of(plans@, plans@.len() as int),
                weakest.items@,
            ),
    {
        let mut out: Vec<Actuation> = Vec::new();
        let mut i: usize = 0;
        let ghost start = *self;
        let ghost learns = self.learns();
        let ghost w = weakest.items@;
        assert(out@ =~= actuations(start.actuators@, allocations_of(plans@, 0)));
        while i < plans.len()
            invariant
                i <= plans.len(),
                self.wf(),
                learns == start.learns(),
                w == weakest.items@,
                *self == (RadioControl { last_tx: self.last_tx, ..start }),
                out@ == actuations(start.actuators@, allocations_of(plans@, i as int)),
                self.last_tx.items@ == tx_after(
                    start.last_tx.items@,
                    learns,
                    allocations_of(plans@, i as int),
                    w,
                ),
            decreases plans.len() - i,
        {
            let ghost before = allocations_of(plans@, i as int);
            let list: &Vec<RadioAllocation> = &plans[i].allocations;
            let mut j: usize = 0;
            assert(before + list@.take(0) =~= before);
            while j < list.len()
                invariant
                    j <= list.len(),
                    self.wf(),
                    learns == start.learns(),
                    w == weakest.items@,
                    *self == (RadioControl { last_tx: self.last_tx, ..start }),
                    out@ == actuations(start.actuators@, before + list@.take(j as int)),
                    self.last_tx.items@ == tx_after(
                        start.last_tx.items@,
                        learns,
                        before + list@.take(j as int),
                        w,
                    ),
                decreases list.len() - j,
            {
                let alloc: RadioAllocation = list[j];
                let ghost done = before + list@.take(j as int);
                let ghost more = before + list@.take(j as int + 1);
                proof {
                    assert(more =~= done.push(alloc));
                    assert(more.drop_last() =~= done);
                    assert(self.learns() == learns);
                }
                let a: Actuation = self.actuate_one(&alloc, weakest);
                out.push(a);
                assert(out@ =~= actuations(start.actuators@, more));
                j = j + 1;
            }
            proof {
                assert(list@.take(j as int) =~= list@);
                assert(allocations_of(plans@, i as int + 1) =~= before + list@);
            }
            i = i + 1;
        }
        out
    }

    /// How the plans of this pass are refined. The arms of the last pass are
    /// forgotten. The bandit goes before probing; probing comes round every
    /// `probe_interval` passes of a calibrating plane.
    pub fn refine(&mut self) -> (r: Refinement)
        requires
            old(self).wf(),
        ensures
            final(self).wf(),
            final(self).last_arm.items@.len() == 0,
            *final(self) == (RadioControl {
                last_arm: final(self).last_arm,
                probe_count: final(self).probe_count,
                ..*old(self)
            }),
            final(self).probe_count == old(self).next_probe_count(),
            r == old(self).refinement(),
    {
        self.last_arm.clear();
        if self.bandit {
            return Refinement::Bandit;
        }
        if self.calibrates && self.probe_interval > 0 {
            self.probe_count = self.probe_count.wrapping_add(1);
            if self.probe_count % self.probe_interval == 0 {
                return Refinement::Probe;
            }
        }
        Refinement::Stand
    }

    /// Refines the plans of this pass as far as the plane does it itself: a probe
    /// goes to the first allocation of the first plan, whose radio declares `max`
    /// as its highest rate.
    pub fn refine_plans(&mut self, plans: &mut Vec<RadioPlan>, max: Option<u8>) -> (r: Refinement)
        requires
            old(self).wf(),
        ensures
            final(self).wf(),
            r == old(self).refinement(),
            final(self).last_arm.items@.len() == 0,
            *final(self) == (RadioControl {
                last_arm: final(self).last_arm,
                probe_count: final(self).probe_count,
                ..*old(self)
            }),
            final(self).probe_count == old(self).next_probe_count(),
            is_refined(old(plans)@, final(plans)@, r == Refinement::Probe, max),
    {
        let r: Refinement = self.refine();
        if r == Refinement::Probe {
            probe_first(plans, max);
        }
        r
    }

    /// Remembers the arm that the bandit played on a radio.
    pub fn played(&mut self, radio: u16, arm: usize)
        requires
            old(self).wf(),
        ensures
            final(self).wf(),
            *final(self) == (RadioControl { last_arm: final(self).last_arm, ..*old(self) }),
            final(self).last_arm.items@ == keyed::with_value(
                old(self).last_arm.items@,
                radio,
                arm,
            ),
    {
        self.last_arm.put(radio, arm);
    }
}

/// What the medium tells of a radio; `None` where it knows nothing.
#[derive(Debug, Clone, Copy, PartialEq, Eq, Structural)]
pub struct RadioReading {
    /// The weakest signal heard lately.
    pub weakest_rssi: Option<i8>,
    /// How busy the allocated channel is, in percent.
    pub busy_pct: Option<u8>,
    /// The highest rate that the radio declares.
    pub max_mcs: Option<u8>,
    /// The highest power that the radio declares.
    pub max_power: Option<u8>,
}

/// What the bandit plays on: its context, and the bounds of its arm.
#[derive(Debug, Clone, Copy, PartialEq, Eq, Structural)]
pub struct ArmSetting {
    pub rssi: i8,
    pub busy_pct: u8,
    pub max_mcs: u8,
    pub max_power: u8,
}

/// What the bandit plays on where the medium gave this reading. What is unknown
/// counts as a weak signal, an idle channel and the widest bounds.
pub fn arm_setting(r: RadioReading) -> (a: ArmSetting)
    ensures
        a.rssi == (match r.weakest_rssi {
            Some(v) => v,
            None => UNHEARD_RSSI_DBM,
        }),
        a.busy_pct == (match r.busy_pct {
            Some(v) => v,
            None => 0u8,
        }),
        a.max_mcs == (match r.max_mcs {
            Some(v) => v,
            None => DEFAULT_MAX_MCS,
        }),
        a.max_power == (match r.max_power {
            Some(v) => v,
            None => DEFAULT_MAX_POWER,
        }),
{
    ArmSetting {
        rssi: match r.weakest_rssi {
            Some(v) => v,
            None => UNHEARD_RSSI_DBM,
        },
        busy_pct: match r.busy_pct {
            Some(v) => v,
            None => 0,
        },
        max_mcs: match r.max_mcs {
            Some(v) => v,
            None => DEFAULT_MAX_MCS,
        },
        max_power: match r.max_power {
            Some(v) => v,
            None => DEFAULT_MAX_POWER,
        },
    }
}

/// `after` are the plans `before`, but for the first allocation of the first one,
/// which a probe moves to the next rate up.
pub open spec fn is_refined(
    before: Seq<RadioPlan>,
    after: Seq<RadioPlan>,
    probe: bool,
    max: Option<u8>,
) -> bool {
    &&& after.len() == before.len()
    &&& forall|i: int|
        0 <= i < before.len() ==> (#[trigger] after[i]).suppress == before[i].suppress
            && after[i].allocations@ == (if probe && i == 0 && before[i].allocations@.len() > 0 {
            let first = before[0].allocations@[0];
            before[0].allocations@.update(
                0,
                RadioAllocation { params: probed(first.params, max), ..first },
            )
        } else {
            before[i].allocations@
        })
}

/// Moves the first allocation of the first plan to the next rate up, where it has a
/// rate below the highest that its radio declares.
pub fn probe_first(plans: &mut Vec<RadioPlan>, max: Option<u8>)
    ensures
        is_refined(old(plans)@, final(plans)@, true, max),
{
    if plans.len() == 0 {
        return;
    }
    if plans[0].allocations.len() == 0 {
        return;
    }
    let top: u8 = match max {
        Some(m) => m,
        None => DEFAULT_MAX_MCS,
    };
    let first: RadioAllocation = plans[0].allocations[0];
    let mut params: TxParams = first.params;
    if let Some(mcs) = params.mcs {
        if mcs < top {
            params.mcs = Some(mcs + 1);
        }
    }
    let moved = RadioAllocation { radio: first.radio, channel: first.channel, params };
    plans[0].allocations[0] = moved;
}

/// How many of the first `n` plans send nothing.
pub open spec fn suppressed_among(plans: Seq<RadioPlan>, n: int) -> nat
    decreases n,
{
    if n <= 0 {
        0
    } else {
        suppressed_among(plans, n - 1) + (if plans[n - 1].suppress {
            1nat
        } else {
            0nat
        })
    }
}

/// How many objects are managed, and for how many of them nothing is sent.
pub fn telemetry(plans: &Vec<RadioPlan>) -> (r: (usize, usize))
    ensures
        r.0 == plans@.len(),
        r.1 == suppressed_among(plans@, plans@.len() as int),
{
    let mut n: usize = 0;
    let mut i: usize = 0;
    while i < plans.len()
        invariant
            i <= plans.len(),
            n <= i,
            n == suppressed_among(plans@, i as int),
        decreases plans.len() - i,
    {
        if plans[i].suppress {
            n = n + 1;
        }
        i = i + 1;
    }
    (plans.len(), n)
}

/// How far a 16-bit activity counter went between two readings, across its
/// turnover.
pub fn activity_delta(prev: u16, cur: u16) -> (d: u16)
    ensures
        d == (if cur >= prev {
            cur - prev
        } else {
            cur - prev + 0x1_0000
        }),
{
    cur.wrapping_sub(prev)
}

// ---------------------------------------------------------------------------
// Laws
// ---------------------------------------------------------------------------

/// Several allocations for one radio: the last one that can teach something is what
/// the radio is remembered to have sent at.
pub proof fn law_the_last_allocation_stands(
    items: Seq<keyed::Entry<TxRecord>>,
    allocs: Seq<RadioAllocation>,
    weakest: Seq<keyed::Entry<i8>>,
    i: int,
)
    requires
        keyed::one_each(items),
        0 <= i < allocs.len(),
        is_instructive(allocs[i]),
        forall|j: int|
            i < j < allocs.len() && (#[trigger] allocs[j]).radio == allocs[i].radio
                ==> !is_instructive(allocs[j]),
    ensures
        keyed::one_each(tx_after(items, true, allocs, weakest)),
        keyed::value_of(tx_after(items, true, allocs, weakest), allocs[i].radio) == Some(
            record_of(allocs[i], weakest),
        ),
    decreases allocs.len(),
{
    let head = allocs.drop_last();
    let last = allocs.last();
    lemma_tx_after_one_each(items, true, head, weakest);
    let before = tx_after(items, true, head, weakest);
    keyed::law_values_are_kept_per_radio(
        before,
        last.radio,
        record_of(last, weakest),
        allocs[i].radio,
    );
    lemma_tx_after_one_each(items, true, allocs, weakest);
    if i < head.len() {
        assert(head[i] == allocs[i]);
        assert forall|j: int|
            i < j < head.len() && (#[trigger] head[j]).radio == head[i].radio implies !is_instructive(
            head[j],
        ) by {
            assert(allocs[j] == head[j]);
        }
        law_the_last_allocation_stands(items, head, weakest, i);
        assert(allocs[allocs.len() - 1] == last);
    }
}

proof fn lemma_tx_after_one_each(
    items: Seq<keyed::Entry<TxRecord>>,
    learns: bool,
    allocs: Seq<RadioAllocation>,
    weakest: Seq<keyed::Entry<i8>>,
)
    requires
        keyed::one_each(items),
    ensures
        keyed::one_each(tx_after(items, learns, allocs, weakest)),
    decreases allocs.len(),
{
    if allocs.len() > 0 {
        lemma_tx_after_one_each(items, learns, allocs.drop_last(), weakest);
        keyed::lemma_with_value_keeps_one_each(
            tx_after(items, learns, allocs.drop_last(), weakest),
            allocs.last().radio,
            record_of(allocs.last(), weakest),
        );
    }
}

/// Once a report went out, none is due before the interval has passed.
pub proof fn law_reports_keep_their_distance(c: RadioControl, sent_ms: u64, now_ms: u64)
    requires
        c.last_report_ms == Some(sent_ms),
        now_ms - sent_ms < c.report_interval_ms,
    ensures
        !c.report_due(now_ms),
{
}

/// A node without a number never reports.
pub proof fn law_no_number_no_reports(c: RadioControl, now_ms: u64)
    requires
        c.node_id == 0,
    ensures
        !c.report_due(now_ms),
{
}

/// A probe goes up one rate at most, never over the radio's highest, and changes
/// nothing else.
pub proof fn law_a_probe_goes_up_one_rate(params: TxParams, max: u8)
    requires
        params.mcs is Some,
    ensures
        probed(params, Some(max)).mcs is Some,
        params.mcs->0 <= probed(params, Some(max)).mcs->0 <= params.mcs->0 + 1,
        params.mcs->0 <= max ==> probed(params, Some(max)).mcs->0 <= max,
        probed(params, Some(max)) == (TxParams { mcs: probed(params, Some(max)).mcs, ..params }),
{
}

/// A radio that sends without a rate is never probed.
pub proof fn law_only_rates_are_probed(params: TxParams, max: Option<u8>)
    requires
        params.mcs is None,
    ensures
        probed(params, max) == params,
{
}

/// Every lesson of the rate calibrator names a rate that some radio last sent at,
/// and the signal it was sent over.
pub proof fn law_a_lesson_names_what_was_sent(
    records: Seq<keyed::Entry<TxRecord>>,
    n: int,
    i: int,
)
    requires
        0 <= n <= records.len(),
        0 <= i < rate_lessons(records, n).len(),
    ensures
        exists|k: int|
            0 <= k < n && (#[trigger] records[k]).value.params.mcs is Some && rate_lessons(
                records,
                n,
            )[i] == Lesson::Rate(records[k].value.params.mcs->0, records[k].value.rssi),
    decreases n,
{
    let r = records[n - 1].value;
    if r.params.mcs is Some && i == rate_lessons(records, n - 1).len() {
        assert(records[n - 1].value.params.mcs is Some);
    } else {
        law_a_lesson_names_what_was_sent(records, n - 1, i);
    }
}

/// A name is one of reports exactly where it starts with `localhop`, `radio` and
/// `report`, whatever follows.
pub proof fn law_which_names_are_reports(components: Seq<Vec<u8>>)
    ensures
        names_a_report(components) <==> components.len() >= 3 && components[0]@ == seq![
            0x6cu8,
            0x6f,
            0x63,
            0x61,
            0x6c,
            0x68,
            0x6f,
            0x70,
        ] && components[1]@ == seq![0x72u8, 0x61, 0x64, 0x69, 0x6f] && components[2]@ == seq![
            0x72u8,
            0x65,
            0x70,
            0x6f,
            0x72,
            0x74,
        ],
{
    assert(LOCALHOP@ =~= seq![0x6cu8, 0x6f, 0x63, 0x61, 0x6c, 0x68, 0x6f, 0x70]);
    assert(RADIO@ =~= seq![0x72u8, 0x61, 0x64, 0x69, 0x6f]);
    assert(REPORT@ =~= seq![0x72u8, 0x65, 0x70, 0x6f, 0x72, 0x74]);
}

/// A report says of a node what its first entry for that node says, and nothing where it
/// has no entry for it.
pub proof fn law_the_first_entry_counts(list: Seq<(u64, i8)>, node: u64, from: int, i: int)
    requires
        0 <= from,
    ensures
        from <= i < list.len() && list[i].0 == node && (forall|j: int|
            from <= j < i ==> (#[trigger] list[j]).0 != node) ==> entry_for(list, node, from)
            == Some(list[i].1),
        (forall|j: int| from <= j < list.len() ==> (#[trigger] list[j]).0 != node) ==> entry_for(
            list,
            node,
            from,
        ) is None,
    decreases list.len() - from,
{
    if from < list.len() {
        law_the_first_entry_counts(list, node, from + 1, i);
    }
}

/// A report is due exactly where reports are on, the node has a number, and none went out
/// yet or the interval has passed since.
pub proof fn law_when_a_report_is_due(c: RadioControl, now_ms: u64)
    ensures
        c.report_due(now_ms) <==> c.report_interval_ms > 0 && c.node_id > 0 && (c.last_report_ms
            is None || now_ms >= c.last_report_ms->0 + c.report_interval_ms),
{
}

/// Sending a report changes when the last one went out and its number, and nothing else.
pub proof fn law_reports_change_nothing_else(a: RadioControl, b: RadioControl)
    requires
        a.same_but_reports(b),
    ensures
        a == (RadioControl { last_report_ms: a.last_report_ms, report_seq: a.report_seq, ..b }),
{
}

/// Each record with a rate gives the rate calibrator one lesson, in order: its rate and
/// the signal that it was sent over.
pub proof fn law_every_rate_teaches(records: Seq<keyed::Entry<TxRecord>>, n: int, k: int)
    requires
        0 <= k < n <= records.len(),
    ensures
        rate_lessons(records, n).len() == records.take(n).filter(
            |e: keyed::Entry<TxRecord>| e.value.params.mcs is Some,
        ).len(),
        records[k].value.params.mcs matches Some(mcs) ==> {
            let at = rate_lessons(records, k).len() as int;
            at < rate_lessons(records, n).len() && rate_lessons(records, n)[at] == Lesson::Rate(
                mcs,
                records[k].value.rssi,
            )
        },
    decreases n,
{
    reveal(Seq::filter);
    let p = |e: keyed::Entry<TxRecord>| e.value.params.mcs is Some;
    assert(records.take(n).drop_last() =~= records.take(n - 1));
    assert(records.take(n).last() == records[n - 1]);
    if n - 1 > 0 {
        law_every_rate_teaches(records, n - 1, if k < n - 1 {
            k
        } else {
            0
        });
    } else {
        assert(records.take(0).filter(p) =~= Seq::<keyed::Entry<TxRecord>>::empty());
    }
}

/// Each record with a spreading factor gives its calibrator one lesson, in order.
pub proof fn law_every_spreading_factor_teaches(
    records: Seq<keyed::Entry<TxRecord>>,
    n: int,
    k: int,
)
    requires
        0 <= k < n <= records.len(),
    ensures
        spreading_lessons(records, n).len() == records.take(n).filter(
            |e: keyed::Entry<TxRecord>| e.value.params.spreading_factor is Some,
        ).len(),
        records[k].value.params.spreading_factor matches Some(sf) ==> {
            let at = spreading_lessons(records, k).len() as int;
            at < spreading_lessons(records, n).len() && spreading_lessons(records, n)[at]
                == Lesson::Spreading(sf, records[k].value.rssi)
        },
    decreases n,
{
    reveal(Seq::filter);
    let p = |e: keyed::Entry<TxRecord>| e.value.params.spreading_factor is Some;
    assert(records.take(n).drop_last() =~= records.take(n - 1));
    assert(records.take(n).last() == records[n - 1]);
    if n - 1 > 0 {
        law_every_spreading_factor_teaches(records, n - 1, if k < n - 1 {
            k
        } else {
            0
        });
    } else {
        assert(records.take(0).filter(p) =~= Seq::<keyed::Entry<TxRecord>>::empty());
    }
}

/// Each record of a radio on which the bandit played gives the bandit one lesson, in
/// order: the radio, the arm and what was sent at.
pub proof fn law_every_arm_teaches(
    records: Seq<keyed::Entry<TxRecord>>,
    arms: Seq<keyed::Entry<usize>>,
    n: int,
    k: int,
)
    requires
        0 <= k < n <= records.len(),
    ensures
        arm_lessons(records, arms, n).len() == records.take(n).filter(
            |e: keyed::Entry<TxRecord>| keyed::value_of(arms, e.radio) is Some,
        ).len(),
        keyed::value_of(arms, records[k].radio) matches Some(arm) ==> {
            let at = arm_lessons(records, arms, k).len() as int;
            at < arm_lessons(records, arms, n).len() && arm_lessons(records, arms, n)[at]
                == Lesson::Arm(records[k].radio, arm, records[k].value.params)
        },
    decreases n,
{
    reveal(Seq::filter);
    let p = |e: keyed::Entry<TxRecord>| keyed::value_of(arms, e.radio) is Some;
    assert(records.take(n).drop_last() =~= records.take(n - 1));
    assert(records.take(n).last() == records[n - 1]);
    if n - 1 > 0 {
        law_every_arm_teaches(records, arms, n - 1, if k < n - 1 {
            k
        } else {
            0
        });
    } else {
        assert(records.take(0).filter(p) =~= Seq::<keyed::Entry<TxRecord>>::empty());
    }
}

/// An allocation goes to the first actuator of its radio, and to none where the radio
/// has none.
pub proof fn law_the_first_actuator_of_a_radio(actuators: Seq<u16>, radio: u16, from: int, i: int)
    requires
        0 <= from,
        actuators.len() <= usize::MAX,
    ensures
        from <= i < actuators.len() && actuators[i] == radio && (forall|j: int|
            from <= j < i ==> #[trigger] actuators[j] != radio) ==> (actuator_of(
            actuators,
            radio,
            from,
        ) matches Some(a) && a == i),
        (forall|j: int| from <= j < actuators.len() ==> #[trigger] actuators[j] != radio)
            ==> actuator_of(actuators, radio, from) is None,
    decreases actuators.len() - from,
{
    if from < actuators.len() {
        law_the_first_actuator_of_a_radio(actuators, radio, from + 1, i);
    }
}

/// An allocation is applied as it was decided; airtime is charged for its spreading
/// factor, at its coding rate, or at one where none was decided.
pub proof fn law_an_allocation_is_applied_as_decided(
    actuators: Seq<u16>,
    allocs: Seq<RadioAllocation>,
    i: int,
)
    requires
        0 <= i < allocs.len(),
    ensures
        ({
            let out = actuations(actuators, allocs);
            &&& out.len() == allocs.len()
            &&& out[i].alloc == allocs[i]
            &&& out[i].charge_sf == allocs[i].params.spreading_factor
            &&& allocs[i].params.coding_rate is Some ==> Some(out[i].charge_cr)
                == allocs[i].params.coding_rate
            &&& allocs[i].params.coding_rate is None ==> out[i].charge_cr == 1
            &&& out[i].actuator == actuator_of(actuators, allocs[i].radio, 0)
        }),
{
}

/// The allocations of all plans are taken one by one, plan by plan, and none is left out.
pub proof fn law_every_allocation_is_taken_in_order(plans: Seq<RadioPlan>, n: int, i: int, j: int)
    requires
        0 <= i < n <= plans.len(),
        0 <= j < plans[i].allocations@.len(),
    ensures
        ({
            let at = allocations_of(plans, i).len() + j;
            &&& at < allocations_of(plans, n).len()
            &&& allocations_of(plans, n)[at as int] == plans[i].allocations@[j]
        }),
        allocations_of(plans, 0).len() == 0,
        allocations_of(plans, i + 1).len() == allocations_of(plans, i).len()
            + plans[i].allocations@.len(),
    decreases n,
{
    if i < n - 1 {
        law_every_allocation_is_taken_in_order(plans, n - 1, i, j);
    }
}

/// An allocation teaches where it sends at a rate or a spreading factor; it is then
/// remembered with the weakest signal heard on its radio, or a weak one where none was
/// heard.
pub proof fn law_what_is_remembered_of_an_allocation(
    alloc: RadioAllocation,
    weakest: Seq<keyed::Entry<i8>>,
)
    ensures
        is_instructive(alloc) <==> alloc.params.mcs is Some || alloc.params.spreading_factor is Some,
        record_of(alloc, weakest).params == alloc.params,
        keyed::value_of(weakest, alloc.radio) matches Some(v) ==> record_of(alloc, weakest).rssi
            == v,
        keyed::value_of(weakest, alloc.radio) is None ==> record_of(alloc, weakest).rssi == -90,
{
}

/// Where nothing learns, nothing is remembered; and a radio for which no allocation
/// teaches anything keeps what is remembered of it.
pub proof fn law_only_what_teaches_is_remembered(
    items: Seq<keyed::Entry<TxRecord>>,
    allocs: Seq<RadioAllocation>,
    weakest: Seq<keyed::Entry<i8>>,
    radio: u16,
)
    requires
        keyed::one_each(items),
        forall|j: int|
            0 <= j < allocs.len() && (#[trigger] allocs[j]).radio == radio ==> !is_instructive(
                allocs[j],
            ),
    ensures
        tx_after(items, false, allocs, weakest) == items,
        keyed::value_of(tx_after(items, true, allocs, weakest), radio) == keyed::value_of(
            items,
            radio,
        ),
    decreases allocs.len(),
{
    if allocs.len() > 0 {
        let head = allocs.drop_last();
        let last = allocs.last();
        assert(allocs[allocs.len() - 1] == last);
        assert forall|j: int|
            0 <= j < head.len() && (#[trigger] head[j]).radio == radio implies !is_instructive(
            head[j],
        ) by {
            assert(allocs[j] == head[j]);
        }
        law_only_what_teaches_is_remembered(items, head, weakest, radio);
        lemma_tx_after_one_each(items, true, head, weakest);
        keyed::law_values_are_kept_per_radio(
            tx_after(items, true, head, weakest),
            last.radio,
            record_of(last, weakest),
            radio,
        );
    }
}

/// A plane learns where it calibrates either way or a bandit plays.
pub proof fn law_who_learns(c: RadioControl)
    ensures
        c.learns() <==> c.calibrates || c.calibrates_sf || c.bandit,
{
}

/// A probe takes the next rate up where the rate is below the radio's highest, which is
/// nine where the radio declares none, and leaves the rate alone where it is not.
pub proof fn law_a_probe_takes_the_next_rate(params: TxParams, max: Option<u8>, mcs: u8)
    requires
        params.mcs == Some(mcs),
    ensures
        ({
            let top = if max is Some {
                max->0 as int
            } else {
                9int
            };
            &&& mcs < top ==> (probed(params, max).mcs matches Some(n) && n == mcs + 1)
            &&& mcs >= top ==> probed(params, max) == params
            &&& probed(params, max) == (TxParams { mcs: probed(params, max).mcs, ..params })
        }),
{
}

/// The bandit goes before everything; without it a calibrating plane probes in every
/// pass whose number the interval divides, and passes are counted on such a plane only.
pub proof fn law_probing_comes_round(c: RadioControl)
    requires
        c.probe_count < u32::MAX,
    ensures
        c.bandit ==> c.refinement() == Refinement::Bandit && c.next_probe_count() == c.probe_count,
        !c.bandit && (!c.calibrates || c.probe_interval == 0) ==> c.refinement()
            == Refinement::Stand && c.next_probe_count() == c.probe_count,
        !c.bandit && c.calibrates && c.probe_interval > 0 ==> c.next_probe_count() == c.probe_count
            + 1 && (c.refinement() == Refinement::Probe <==> (c.probe_count + 1)
            % c.probe_interval as int == 0) && (c.refinement() == Refinement::Probe
            || c.refinement() == Refinement::Stand),
{
}

/// A refinement changes the rate of the first allocation of the first plan, where it
/// probes, and nothing else of any plan.
pub proof fn law_only_the_first_allocation_is_probed(
    before: Seq<RadioPlan>,
    after: Seq<RadioPlan>,
    probe: bool,
    max: Option<u8>,
    i: int,
    j: int,
)
    requires
        is_refined(before, after, probe, max),
        0 <= i < before.len(),
        0 <= j < before[i].allocations@.len(),
    ensures
        after.len() == before.len(),
        after[i].suppress == before[i].suppress,
        after[i].allocations@.len() == before[i].allocations@.len(),
        after[i].allocations@[j].radio == before[i].allocations@[j].radio,
        after[i].allocations@[j].channel == before[i].allocations@[j].channel,
        probe && i == 0 && j == 0 ==> after[i].allocations@[j].params == probed(
            before[i].allocations@[j].params,
            max,
        ),
        !probe || i > 0 || j > 0 ==> after[i].allocations@[j] == before[i].allocations@[j],
{
}

/// The plans that send nothing are counted, each of them and no other.
pub proof fn law_suppressed_plans_are_counted(plans: Seq<RadioPlan>, n: int)
    requires
        0 <= n <= plans.len(),
    ensures
        suppressed_among(plans, n) == plans.take(n).filter(|p: RadioPlan| p.suppress).len(),
    decreases n,
{
    reveal(Seq::filter);
    let p = |p: RadioPlan| p.suppress;
    if n > 0 {
        law_suppressed_plans_are_counted(plans, n - 1);
        assert(plans.take(n).drop_last() =~= plans.take(n - 1));
        assert(plans.take(n).last() == plans[n - 1]);
    } else {
        assert(plans.take(0).filter(p) =~= Seq::<RadioPlan>::empty());
    }
}

/// No radio stands twice in what a plane remembers.
pub proof fn law_a_plane_remembers_a_radio_once(c: RadioControl)
    ensures
        c.wf() <==> keyed::one_each(c.last_tx.items@) && keyed::one_each(c.last_arm.items@),
{
}

/// At the turn of its counter a plane goes on counting from zero, and probes there.
pub proof fn law_probing_survives_the_turn(c: RadioControl)
    requires
        c.probe_count == u32::MAX,
        !c.bandit,
        c.calibrates,
        c.probe_interval > 0,
    ensures
        c.next_probe_count() == 0,
        c.refinement() == Refinement::Probe,
{
    vstd::arithmetic::div_mod::lemma_small_mod(0, c.probe_interval as nat);
}

/// What is taken where nothing is known, and how often things come round.
pub proof fn law_the_defaults_of_a_plane()
    ensures
        UNHEARD_RSSI_DBM == -90,
        DEFAULT_MAX_MCS == 9,
        DEFAULT_MAX_POWER == 63,
        CALIBRATION_PROBE_INTERVAL == 10,
        NOMINAL_LORA_PAYLOAD == 40,
        NONCE_FRESH_MS == 10_000,
{
}

} // verus!
