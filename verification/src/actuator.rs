//! Bringing a decided allocation onto a radio, one command at a time.
//!
//! A pass over an allocation walks the stages in order. At each stage at most one
//! command is due, and a command whose value the radio already has is not due: a
//! retune takes longer than a tick. The caller carries the command out and reports
//! back; a failure ends the pass, except that a radio without dBm control falls
//! back to its index scale.

use vstd::prelude::*;

use crate::rate::McsDescriptor;

verus! {

/// The transmit parameters that were decided for a radio.
#[derive(Debug, Clone, Copy, PartialEq, Eq, Structural)]
pub struct TxParams {
    /// The rate index.
    pub mcs: Option<u8>,
    /// A short guard interval.
    pub short_gi: bool,
    /// A VHT rate.
    pub vht: bool,
    /// Spatial streams.
    pub nss: Option<u8>,
    /// Space-time block coding.
    pub stbc: bool,
    /// Low-density parity-check coding.
    pub ldpc: bool,
    /// The bandwidth code.
    pub bw: Option<u8>,
    /// Cyclic shift diversity.
    pub csd: bool,
    /// Transmit over detected energy.
    pub edcca_ignore: bool,
    /// The power on the chip's index scale.
    pub tx_power: Option<u8>,
    /// The power in dBm.
    pub tx_power_dbm: Option<i8>,
    /// The spreading factor of a LoRa radio.
    pub spreading_factor: Option<u8>,
    /// The coding rate of a LoRa radio.
    pub coding_rate: Option<u8>,
    /// The parity frames per generation.
    pub link_fec_redundancy: Option<u16>,
    /// The frames to bundle.
    pub amsdu_msdus: Option<u16>,
}

/// A radio's slice of a plan.
#[derive(Debug, Clone, Copy, PartialEq, Eq, Structural)]
pub struct RadioAllocation {
    /// The radio.
    pub radio: u16,
    /// The channel to use.
    pub channel: Option<u8>,
    /// The transmit parameters.
    pub params: TxParams,
}

/// Where a radio is tuned to.
#[derive(Debug, Clone, Copy, PartialEq, Eq, Structural)]
pub struct Tuning {
    /// The channel.
    pub channel: u8,
    /// The bandwidth code.
    pub bw: u8,
}

/// The knob values last brought onto a radio.
#[derive(Debug, Clone, Copy, PartialEq, Eq, Structural)]
pub struct AppliedKnobs {
    /// Channel and bandwidth.
    pub channel: Option<Tuning>,
    /// Cyclic shift diversity.
    pub csd: Option<bool>,
    /// Transmission over detected energy.
    pub edcca: Option<bool>,
    /// The power index.
    pub power: Option<u8>,
    /// The power in dBm, as it was asked for.
    pub power_dbm: Option<i8>,
    /// The spreading factor.
    pub sf: Option<u8>,
    /// The coding rate.
    pub cr: Option<u8>,
}

impl AppliedKnobs {
    /// Nothing was brought onto the radio yet.
    pub open spec fn none() -> Self {
        AppliedKnobs {
            channel: None,
            csd: None,
            edcca: None,
            power: None,
            power_dbm: None,
            sf: None,
            cr: None,
        }
    }
}

impl Default for AppliedKnobs {
    fn default() -> (k: Self)
        ensures
            k == AppliedKnobs::none(),
    {
        AppliedKnobs {
            channel: None,
            csd: None,
            edcca: None,
            power: None,
            power_dbm: None,
            sf: None,
            cr: None,
        }
    }
}

/// Something to do to a radio.
#[derive(Debug, Clone, Copy, PartialEq, Eq, Structural)]
pub enum Command {
    /// Set the rate that frames go out at.
    SetRate(McsDescriptor),
    /// Set the parity of coded generations.
    StoreParity(u16),
    /// Tune to a channel with a bandwidth code.
    SetChannel(u8, u8),
    /// Turn cyclic shift diversity on or off.
    SetCsd(bool),
    /// Transmit over detected energy or not.
    SetEdccaIgnore(bool),
    /// Set the power in dBm.
    SetPowerDbm(i8),
    /// Set the power on the index scale.
    SetPower(u8),
    /// Set the spreading factor.
    SetSpreadingFactor(u8),
    /// Set the coding rate.
    SetCodingRate(u8),
    /// Hand the parameters to the send path.
    StorePlan(TxParams),
}

/// Where a pass is.
#[derive(Debug, Clone, Copy, PartialEq, Eq, Structural)]
pub enum Stage {
    /// The rate.
    Rate,
    /// The parity.
    Parity,
    /// The channel.
    Channel,
    /// Cyclic shift diversity.
    Csd,
    /// Transmission over detected energy.
    Edcca,
    /// The power in dBm.
    PowerDbm,
    /// The power index.
    Power,
    /// The spreading factor.
    SpreadingFactor,
    /// The coding rate.
    CodingRate,
    /// The parameters for the send path.
    Plan,
    /// The end.
    Done,
}

/// The stage behind this one.
pub open spec fn behind(s: Stage) -> Stage {
    match s {
        Stage::Rate => Stage::Parity,
        Stage::Parity => Stage::Channel,
        Stage::Channel => Stage::Csd,
        Stage::Csd => Stage::Edcca,
        Stage::Edcca => Stage::PowerDbm,
        Stage::PowerDbm => Stage::Power,
        Stage::Power => Stage::SpreadingFactor,
        Stage::SpreadingFactor => Stage::CodingRate,
        Stage::CodingRate => Stage::Plan,
        Stage::Plan => Stage::Done,
        Stage::Done => Stage::Done,
    }
}

/// How many stages are left.
pub open spec fn stages_left(s: Stage) -> nat {
    match s {
        Stage::Rate => 10,
        Stage::Parity => 9,
        Stage::Channel => 8,
        Stage::Csd => 7,
        Stage::Edcca => 6,
        Stage::PowerDbm => 5,
        Stage::Power => 4,
        Stage::SpreadingFactor => 3,
        Stage::CodingRate => 2,
        Stage::Plan => 1,
        Stage::Done => 0,
    }
}

/// What can be done to a radio.
#[derive(Debug, Clone, Copy, PartialEq, Eq, Structural)]
pub struct Binding {
    /// The driver holds the rate.
    pub rate: bool,
    /// Generations are coded, with at least so much parity.
    pub parity_floor: Option<u16>,
    /// Channel, power and the like can be set.
    pub knobs: bool,
    /// The power can be asked for in dBm.
    pub dbm: bool,
    /// The send path reads the parameters.
    pub plan: bool,
}

/// The parity to set: the decided one, none for no decision, and the floor at
/// least.
pub open spec fn parity_for(decided: Option<u16>, floor: u16) -> u16 {
    let n = match decided {
        Some(n) => n,
        None => 0u16,
    };
    if n < floor {
        floor
    } else {
        n
    }
}

/// The rate that the parameters describe, with one stream where they name none.
pub open spec fn rate_of(p: TxParams) -> Option<McsDescriptor> {
    match p.mcs {
        Some(index) => Some(
            McsDescriptor {
                index,
                short_gi: p.short_gi,
                vht: p.vht,
                nss: match p.nss {
                    Some(n) => n,
                    None => 1u8,
                },
                stbc: p.stbc,
                ldpc: p.ldpc,
            },
        ),
        None => None,
    }
}

/// The bandwidth code of the parameters.
pub open spec fn bw_code(p: TxParams) -> u8 {
    match p.bw {
        Some(b) => b,
        None => 0u8,
    }
}

/// The power stands as it was asked for in dBm.
pub open spec fn dbm_stands(b: Binding, last: AppliedKnobs, p: TxParams) -> bool {
    b.dbm && p.tx_power_dbm is Some && last.power_dbm == p.tx_power_dbm
}

/// The command that is due at a stage, where one is.
pub open spec fn command_at(
    b: Binding,
    last: AppliedKnobs,
    a: RadioAllocation,
    s: Stage,
) -> Option<Command> {
    let p = a.params;
    match s {
        Stage::Rate => if b.rate && rate_of(p) is Some {
            Some(Command::SetRate(rate_of(p)->0))
        } else {
            None
        },
        Stage::Parity => match b.parity_floor {
            Some(floor) => Some(Command::StoreParity(parity_for(p.link_fec_redundancy, floor))),
            None => None,
        },
        Stage::Channel => match a.channel {
            Some(ch) if b.knobs && last.channel != Some(
                Tuning { channel: ch, bw: bw_code(p) },
            ) => Some(
                Command::SetChannel(ch, bw_code(p)),
            ),
            _ => None,
        },
        Stage::Csd => if b.knobs && last.csd != Some(p.csd) {
            Some(Command::SetCsd(p.csd))
        } else {
            None
        },
        Stage::Edcca => if b.knobs && last.edcca != Some(p.edcca_ignore) {
            Some(Command::SetEdccaIgnore(p.edcca_ignore))
        } else {
            None
        },
        Stage::PowerDbm => match p.tx_power_dbm {
            Some(d) if b.knobs && b.dbm && last.power_dbm != Some(d) => Some(
                Command::SetPowerDbm(d),
            ),
            _ => None,
        },
        Stage::Power => match p.tx_power {
            Some(i) if b.knobs && !dbm_stands(b, last, p) && last.power != Some(i) => Some(
                Command::SetPower(i),
            ),
            _ => None,
        },
        Stage::SpreadingFactor => match p.spreading_factor {
            Some(v) if b.knobs && last.sf != Some(v) => Some(Command::SetSpreadingFactor(v)),
            _ => None,
        },
        Stage::CodingRate => match p.coding_rate {
            Some(v) if b.knobs && last.cr != Some(v) => Some(Command::SetCodingRate(v)),
            _ => None,
        },
        Stage::Plan => if b.plan {
            Some(Command::StorePlan(p))
        } else {
            None
        },
        Stage::Done => None,
    }
}

/// The first command that is due from a stage on, and its stage.
pub open spec fn due_from(
    b: Binding,
    last: AppliedKnobs,
    a: RadioAllocation,
    s: Stage,
) -> Option<(Stage, Command)>
    decreases stages_left(s),
{
    if s == Stage::Done {
        None
    } else {
        match command_at(b, last, a, s) {
            Some(c) => Some((s, c)),
            None => due_from(b, last, a, behind(s)),
        }
    }
}

/// The knob values after a command was carried out.
pub open spec fn recorded(last: AppliedKnobs, c: Command) -> AppliedKnobs {
    match c {
        Command::SetChannel(ch, bw) => AppliedKnobs { channel: Some(Tuning { channel: ch, bw }), ..last },
        Command::SetCsd(v) => AppliedKnobs { csd: Some(v), ..last },
        Command::SetEdccaIgnore(v) => AppliedKnobs { edcca: Some(v), ..last },
        Command::SetPowerDbm(v) => AppliedKnobs { power_dbm: Some(v), ..last },
        Command::SetPower(v) => AppliedKnobs { power: Some(v), ..last },
        Command::SetSpreadingFactor(v) => AppliedKnobs { sf: Some(v), ..last },
        Command::SetCodingRate(v) => AppliedKnobs { cr: Some(v), ..last },
        _ => last,
    }
}

/// The knob values after a pass from a stage on in which every command but, where
/// `dbm_works` is false, the one in dBm succeeds.
pub open spec fn settled(
    b: Binding,
    last: AppliedKnobs,
    a: RadioAllocation,
    s: Stage,
    dbm_works: bool,
) -> AppliedKnobs
    decreases stages_left(s),
{
    if s == Stage::Done {
        last
    } else {
        let after = match command_at(b, last, a, s) {
            Some(c) => if s == Stage::PowerDbm && !dbm_works {
                last
            } else {
                recorded(last, c)
            },
            None => last,
        };
        settled(b, after, a, behind(s), dbm_works)
    }
}

/// The stage behind this one.
pub fn next_stage(s: Stage) -> (n: Stage)
    ensures
        n == behind(s),
{
    match s {
        Stage::Rate => Stage::Parity,
        Stage::Parity => Stage::Channel,
        Stage::Channel => Stage::Csd,
        Stage::Csd => Stage::Edcca,
        Stage::Edcca => Stage::PowerDbm,
        Stage::PowerDbm => Stage::Power,
        Stage::Power => Stage::SpreadingFactor,
        Stage::SpreadingFactor => Stage::CodingRate,
        Stage::CodingRate => Stage::Plan,
        Stage::Plan => Stage::Done,
        Stage::Done => Stage::Done,
    }
}

/// The command that is due at a stage, where one is.
fn command_due(b: &Binding, last: &AppliedKnobs, a: &RadioAllocation, s: Stage) -> (c: Option<
    Command,
>)
    ensures
        c == command_at(*b, *last, *a, s),
{
    let p: TxParams = a.params;
    match s {
        Stage::Rate => match p.mcs {
            Some(index) => if b.rate {
                let nss: u8 = match p.nss {
                    Some(n) => n,
                    None => 1,
                };
                Some(
                    Command::SetRate(
                        McsDescriptor {
                            index,
                            short_gi: p.short_gi,
                            vht: p.vht,
                            nss,
                            stbc: p.stbc,
                            ldpc: p.ldpc,
                        },
                    ),
                )
            } else {
                None
            },
            None => None,
        },
        Stage::Parity => match b.parity_floor {
            Some(floor) => {
                let n: u16 = match p.link_fec_redundancy {
                    Some(n) => n,
                    None => 0,
                };
                Some(Command::StoreParity(if n < floor { floor } else { n }))
            },
            None => None,
        },
        Stage::Channel => match a.channel {
            Some(ch) => {
                let bw: u8 = match p.bw {
                    Some(c) => c,
                    None => 0,
                };
                let same: bool = match last.channel {
                    Some(t) => t.channel == ch && t.bw == bw,
                    None => false,
                };
                if b.knobs && !same {
                    Some(Command::SetChannel(ch, bw))
                } else {
                    None
                }
            },
            None => None,
        },
        Stage::Csd => {
            let same: bool = match last.csd {
                Some(v) => v == p.csd,
                None => false,
            };
            if b.knobs && !same {
                Some(Command::SetCsd(p.csd))
            } else {
                None
            }
        },
        Stage::Edcca => {
            let same: bool = match last.edcca {
                Some(v) => v == p.edcca_ignore,
                None => false,
            };
            if b.knobs && !same {
                Some(Command::SetEdccaIgnore(p.edcca_ignore))
            } else {
                None
            }
        },
        Stage::PowerDbm => match p.tx_power_dbm {
            Some(d) => {
                let same: bool = match last.power_dbm {
                    Some(v) => v == d,
                    None => false,
                };
                if b.knobs && b.dbm && !same {
                    Some(Command::SetPowerDbm(d))
                } else {
                    None
                }
            },
            None => None,
        },
        Stage::Power => match p.tx_power {
            Some(i) => {
                let stands: bool = match (p.tx_power_dbm, last.power_dbm) {
                    (Some(d), Some(v)) => b.dbm && d == v,
                    _ => false,
                };
                let same: bool = match last.power {
                    Some(v) => v == i,
                    None => false,
                };
                if b.knobs && !stands && !same {
                    Some(Command::SetPower(i))
                } else {
                    None
                }
            },
            None => None,
        },
        Stage::SpreadingFactor => match p.spreading_factor {
            Some(v) => {
                let same: bool = match last.sf {
                    Some(w) => w == v,
                    None => false,
                };
                if b.knobs && !same {
                    Some(Command::SetSpreadingFactor(v))
                } else {
                    None
                }
            },
            None => None,
        },
        Stage::CodingRate => match p.coding_rate {
            Some(v) => {
                let same: bool = match last.cr {
                    Some(w) => w == v,
                    None => false,
                };
                if b.knobs && !same {
                    Some(Command::SetCodingRate(v))
                } else {
                    None
                }
            },
            None => None,
        },
        Stage::Plan => if b.plan {
            Some(Command::StorePlan(p))
        } else {
            None
        },
        Stage::Done => None,
    }
}

/// The first command that is due from a stage on, and its stage.
fn first_due(b: &Binding, last: &AppliedKnobs, a: &RadioAllocation, from: Stage) -> (r: Option<
    (Stage, Command),
>)
    ensures
        r == due_from(*b, *last, *a, from),
{
    let mut s: Stage = from;
    while s != Stage::Done
        invariant
            due_from(*b, *last, *a, from) == due_from(*b, *last, *a, s),
        decreases stages_left(s),
    {
        if let Some(c) = command_due(b, last, a, s) {
            return Some((s, c));
        }
        s = next_stage(s);
    }
    None
}

/// Notes that a command was carried out.
fn record(last: &mut AppliedKnobs, c: Command)
    ensures
        *final(last) == recorded(*old(last), c),
{
    match c {
        Command::SetChannel(ch, bw) => {
            last.channel = Some(Tuning { channel: ch, bw });
        },
        Command::SetCsd(v) => {
            last.csd = Some(v);
        },
        Command::SetEdccaIgnore(v) => {
            last.edcca = Some(v);
        },
        Command::SetPowerDbm(v) => {
            last.power_dbm = Some(v);
        },
        Command::SetPower(v) => {
            last.power = Some(v);
        },
        Command::SetSpreadingFactor(v) => {
            last.sf = Some(v);
        },
        Command::SetCodingRate(v) => {
            last.cr = Some(v);
        },
        _ => {},
    }
}

/// Takes the report on a command. Returns where the pass goes on, or that the
/// failure ends it.
fn take_report(last: &mut AppliedKnobs, s: Stage, c: Command, ok: bool) -> (next: Option<Stage>)
    ensures
        *final(last) == (if ok {
            recorded(*old(last), c)
        } else {
            *old(last)
        }),
        next == (if ok || s == Stage::PowerDbm {
            Some(behind(s))
        } else {
            None
        }),
{
    if ok {
        record(last, c);
        return Some(next_stage(s));
    }
    if s == Stage::PowerDbm {
        Some(next_stage(s))
    } else {
        None
    }
}

/// Actuates a bearer of the medium: its rate, its parity and, where it has them,
/// its knobs.
#[derive(Debug, Clone, Copy, PartialEq, Eq, Structural)]
pub struct MediumActuator {
    /// The radio.
    pub radio: u16,
    /// It has knobs.
    pub knobs: bool,
    /// It codes generations, with at least so much parity.
    pub fec_floor: Option<u16>,
    /// What was brought onto the radio.
    pub last: AppliedKnobs,
}

impl MediumActuator {
    /// What can be done to the radio.
    pub open spec fn binding(&self) -> Binding {
        Binding {
            rate: true,
            parity_floor: self.fec_floor,
            knobs: self.knobs,
            dbm: true,
            plan: false,
        }
    }

    /// An actuator that has brought nothing onto the radio.
    pub fn new(radio: u16, knobs: bool) -> (m: Self)
        ensures
            m == (MediumActuator { radio, knobs, fec_floor: None, last: AppliedKnobs::none() }),
    {
        MediumActuator { radio, knobs, fec_floor: None, last: AppliedKnobs::default() }
    }

    /// Also sets the parity, to at least `floor`.
    pub fn with_fec_redundancy(self, floor: u16) -> (m: Self)
        ensures
            m == (MediumActuator { fec_floor: Some(floor), ..self }),
    {
        MediumActuator { fec_floor: Some(floor), ..self }
    }

    /// The radio that this actuates.
    pub fn radio_id(&self) -> (r: u16)
        ensures
            r == self.radio,
    {
        self.radio
    }

    /// The next command of a pass over an allocation.
    pub fn apply(&self, alloc: &RadioAllocation, from: Stage) -> (r: Option<(Stage, Command)>)
        ensures
            r == due_from(self.binding(), self.last, *alloc, from),
    {
        let b = Binding {
            rate: true,
            parity_floor: self.fec_floor,
            knobs: self.knobs,
            dbm: true,
            plan: false,
        };
        first_due(&b, &self.last, alloc, from)
    }

    /// Takes the report on a command.
    pub fn report(&mut self, s: Stage, c: Command, ok: bool) -> (next: Option<Stage>)
        ensures
            *final(self) == (MediumActuator {
                last: if ok {
                    recorded(old(self).last, c)
                } else {
                    old(self).last
                },
                ..*old(self)
            }),
            next == (if ok || s == Stage::PowerDbm {
                Some(behind(s))
            } else {
                None
            }),
    {
        take_report(&mut self.last, s, c, ok)
    }
}

/// Actuates a radio on the USB bus: its knobs, and the parameters that its send
/// path reads. The index scale is its only power scale.
#[derive(Debug, Clone, Copy, PartialEq, Eq, Structural)]
pub struct LibUsbActuator {
    /// The radio.
    pub radio: u16,
    /// What was brought onto the radio.
    pub last: AppliedKnobs,
}

impl LibUsbActuator {
    /// What can be done to the radio.
    pub open spec fn binding(&self) -> Binding {
        Binding { rate: false, parity_floor: None, knobs: true, dbm: false, plan: true }
    }

    /// An actuator that has brought nothing onto the radio.
    pub fn new(radio: u16) -> (u: Self)
        ensures
            u == (LibUsbActuator { radio, last: AppliedKnobs::none() }),
    {
        LibUsbActuator { radio, last: AppliedKnobs::default() }
    }

    /// The radio that this actuates.
    pub fn radio_id(&self) -> (r: u16)
        ensures
            r == self.radio,
    {
        self.radio
    }

    /// The next command of a pass over an allocation.
    pub fn apply(&self, alloc: &RadioAllocation, from: Stage) -> (r: Option<(Stage, Command)>)
        ensures
            r == due_from(self.binding(), self.last, *alloc, from),
    {
        let b = Binding { rate: false, parity_floor: None, knobs: true, dbm: false, plan: true };
        first_due(&b, &self.last, alloc, from)
    }

    /// Takes the report on a command.
    pub fn report(&mut self, s: Stage, c: Command, ok: bool) -> (next: Option<Stage>)
        ensures
            *final(self) == (LibUsbActuator {
                last: if ok {
                    recorded(old(self).last, c)
                } else {
                    old(self).last
                },
                ..*old(self)
            }),
            next == (if ok || s == Stage::PowerDbm {
                Some(behind(s))
            } else {
                None
            }),
    {
        take_report(&mut self.last, s, c, ok)
    }
}

// ---------------------------------------------------------------------------
// Laws
// ---------------------------------------------------------------------------

/// The power stands in dBm when a pass from this stage reaches the index.
spec fn dbm_will_stand(
    b: Binding,
    last: AppliedKnobs,
    p: TxParams,
    s: Stage,
    dbm_works: bool,
) -> bool {
    b.dbm && p.tx_power_dbm is Some && (b.knobs && dbm_works && stages_left(s) >= 5
        || last.power_dbm == p.tx_power_dbm)
}

/// What a pass from a stage on leaves of each knob.
spec fn left_by_a_pass(
    b: Binding,
    last: AppliedKnobs,
    a: RadioAllocation,
    s: Stage,
    dbm_works: bool,
) -> AppliedKnobs {
    let p = a.params;
    let n = stages_left(s);
    AppliedKnobs {
        channel: if b.knobs && n >= 8 && a.channel is Some {
            Some(Tuning { channel: a.channel->0, bw: bw_code(p) })
        } else {
            last.channel
        },
        csd: if b.knobs && n >= 7 {
            Some(p.csd)
        } else {
            last.csd
        },
        edcca: if b.knobs && n >= 6 {
            Some(p.edcca_ignore)
        } else {
            last.edcca
        },
        power_dbm: if b.knobs && b.dbm && dbm_works && n >= 5 && p.tx_power_dbm is Some {
            p.tx_power_dbm
        } else {
            last.power_dbm
        },
        power: if b.knobs && n >= 4 && p.tx_power is Some && !dbm_will_stand(
            b,
            last,
            p,
            s,
            dbm_works,
        ) {
            p.tx_power
        } else {
            last.power
        },
        sf: if b.knobs && n >= 3 && p.spreading_factor is Some {
            p.spreading_factor
        } else {
            last.sf
        },
        cr: if b.knobs && n >= 2 && p.coding_rate is Some {
            p.coding_rate
        } else {
            last.cr
        },
    }
}

proof fn lemma_settled(
    b: Binding,
    last: AppliedKnobs,
    a: RadioAllocation,
    s: Stage,
    dbm_works: bool,
)
    ensures
        settled(b, last, a, s, dbm_works) == left_by_a_pass(b, last, a, s, dbm_works),
    decreases stages_left(s),
{
    if s != Stage::Done {
        let after = match command_at(b, last, a, s) {
            Some(c) => if s == Stage::PowerDbm && !dbm_works {
                last
            } else {
                recorded(last, c)
            },
            None => last,
        };
        lemma_settled(b, after, a, behind(s), dbm_works);
    }
}

/// After a pass without a failure, the same decision brings no knob command: only
/// what is stored afresh every time is due again.
pub proof fn law_an_unchanged_decision_turns_no_knob(
    b: Binding,
    last: AppliedKnobs,
    a: RadioAllocation,
    s: Stage,
)
    ensures
        ({
            let again = settled(b, last, a, Stage::Rate, true);
            command_at(b, again, a, s) is Some ==> s == Stage::Rate || s == Stage::Parity || s
                == Stage::Plan
        }),
{
    lemma_settled(b, last, a, Stage::Rate, true);
}

/// Where the radio takes dBm, its index scale is left alone: the two never fight
/// over one knob.
pub proof fn law_dbm_leaves_the_index_alone(
    b: Binding,
    last: AppliedKnobs,
    a: RadioAllocation,
    d: i8,
)
    requires
        b.dbm,
        b.knobs,
        a.params.tx_power_dbm == Some(d),
    ensures
        command_at(b, recorded(last, Command::SetPowerDbm(d)), a, Stage::Power) is None,
        command_at(b, recorded(last, Command::SetPowerDbm(d)), a, Stage::PowerDbm) is None,
        settled(b, last, a, Stage::Rate, true).power == last.power,
        settled(b, last, a, Stage::Rate, true).power_dbm == Some(d),
{
    lemma_settled(b, last, a, Stage::Rate, true);
}

/// Where the radio does not take dBm, the index goes out in its place, and once.
pub proof fn law_the_index_stands_in_for_dbm(
    b: Binding,
    last: AppliedKnobs,
    a: RadioAllocation,
    d: i8,
    i: u8,
)
    requires
        b.dbm,
        b.knobs,
        a.params.tx_power_dbm == Some(d),
        last.power_dbm != Some(d),
        a.params.tx_power == Some(i),
    ensures
        last.power != Some(i) ==> command_at(b, last, a, Stage::Power) == Some(
            Command::SetPower(i),
        ),
        command_at(b, settled(b, last, a, Stage::Rate, false), a, Stage::Power) is None,
        settled(b, last, a, Stage::Rate, false).power == Some(i),
{
    lemma_settled(b, last, a, Stage::Rate, false);
}

/// A radio without knobs gets its rate and its parity, and nothing else.
pub proof fn law_without_knobs_only_rate_and_parity(
    b: Binding,
    last: AppliedKnobs,
    a: RadioAllocation,
    s: Stage,
)
    requires
        !b.knobs,
    ensures
        command_at(b, last, a, s) is Some ==> s == Stage::Rate || s == Stage::Parity || s
            == Stage::Plan,
        settled(b, last, a, s, true) == last,
    decreases stages_left(s),
{
    if s != Stage::Done {
        law_without_knobs_only_rate_and_parity(b, last, a, behind(s));
    }
}

/// The parity is never below the floor.
pub proof fn law_parity_keeps_to_the_floor(decided: Option<u16>, floor: u16)
    ensures
        parity_for(decided, floor) >= floor,
        decided is Some ==> parity_for(decided, floor) >= decided->0,
{
}

/// What the rate stage sets is the decided rate, field by field, with one stream where
/// no number of streams was decided; it sets one exactly where a rate was decided and
/// the driver holds the rate.
pub proof fn law_the_decided_rate_is_set(b: Binding, last: AppliedKnobs, a: RadioAllocation)
    ensures
        command_at(b, last, a, Stage::Rate) is Some <==> b.rate && a.params.mcs is Some,
        match command_at(b, last, a, Stage::Rate) {
            Some(Command::SetRate(d)) => {
                &&& a.params.mcs == Some(d.index)
                &&& d.short_gi == a.params.short_gi
                &&& d.vht == a.params.vht
                &&& d.stbc == a.params.stbc
                &&& d.ldpc == a.params.ldpc
                &&& a.params.nss is Some ==> a.params.nss == Some(d.nss)
                &&& a.params.nss is None ==> d.nss == 1
            },
            Some(_) => false,
            None => true,
        },
{
}

/// The parity that is stored is the larger of the floor and the decided one, and it is
/// stored exactly where generations are coded.
pub proof fn law_the_decided_parity_is_stored(b: Binding, last: AppliedKnobs, a: RadioAllocation)
    ensures
        command_at(b, last, a, Stage::Parity) is Some <==> b.parity_floor is Some,
        match command_at(b, last, a, Stage::Parity) {
            Some(Command::StoreParity(n)) => {
                &&& n >= b.parity_floor->0
                &&& a.params.link_fec_redundancy matches Some(d) ==> n >= d
                &&& n == b.parity_floor->0 || a.params.link_fec_redundancy == Some(n)
            },
            Some(_) => false,
            None => true,
        },
{
}

/// A knob is turned to what was decided for it, exactly where the radio has knobs, a
/// value was decided and the radio does not have that value already.
pub proof fn law_knobs_turn_to_what_was_decided(b: Binding, last: AppliedKnobs, a: RadioAllocation)
    ensures
        match command_at(b, last, a, Stage::Channel) {
            Some(Command::SetChannel(ch, bw)) => {
                &&& b.knobs
                &&& a.channel == Some(ch)
                &&& a.params.bw == Some(bw) || a.params.bw is None && bw == 0
                &&& last.channel matches Some(t) ==> t.channel != ch || t.bw != bw
            },
            Some(_) => false,
            None => !b.knobs || a.channel is None || (last.channel matches Some(t) && a.channel
                == Some(t.channel) && (a.params.bw == Some(t.bw) || a.params.bw is None && t.bw
                == 0)),
        },
        match command_at(b, last, a, Stage::Csd) {
            Some(Command::SetCsd(v)) => b.knobs && v == a.params.csd && last.csd != Some(v),
            Some(_) => false,
            None => !b.knobs || last.csd == Some(a.params.csd),
        },
        match command_at(b, last, a, Stage::Edcca) {
            Some(Command::SetEdccaIgnore(v)) => b.knobs && v == a.params.edcca_ignore && last.edcca
                != Some(v),
            Some(_) => false,
            None => !b.knobs || last.edcca == Some(a.params.edcca_ignore),
        },
        match command_at(b, last, a, Stage::SpreadingFactor) {
            Some(Command::SetSpreadingFactor(v)) => b.knobs && a.params.spreading_factor == Some(v)
                && last.sf != Some(v),
            Some(_) => false,
            None => !b.knobs || a.params.spreading_factor is None || last.sf
                == a.params.spreading_factor,
        },
        match command_at(b, last, a, Stage::CodingRate) {
            Some(Command::SetCodingRate(v)) => b.knobs && a.params.coding_rate == Some(v) && last.cr
                != Some(v),
            Some(_) => false,
            None => !b.knobs || a.params.coding_rate is None || last.cr == a.params.coding_rate,
        },
{
}

/// The power goes out as it was decided: in dBm where the radio takes dBm, and on the
/// index scale unless the decided dBm stand already.
pub proof fn law_the_decided_power_is_set(b: Binding, last: AppliedKnobs, a: RadioAllocation)
    ensures
        match command_at(b, last, a, Stage::PowerDbm) {
            Some(Command::SetPowerDbm(v)) => b.knobs && b.dbm && a.params.tx_power_dbm == Some(v)
                && last.power_dbm != Some(v),
            Some(_) => false,
            None => !b.knobs || !b.dbm || a.params.tx_power_dbm is None || last.power_dbm
                == a.params.tx_power_dbm,
        },
        match command_at(b, last, a, Stage::Power) {
            Some(Command::SetPower(v)) => b.knobs && a.params.tx_power == Some(v) && last.power
                != Some(v) && (!b.dbm || a.params.tx_power_dbm is None || last.power_dbm
                != a.params.tx_power_dbm),
            Some(_) => false,
            None => !b.knobs || a.params.tx_power is None || last.power == a.params.tx_power || (
            b.dbm && a.params.tx_power_dbm is Some && last.power_dbm == a.params.tx_power_dbm),
        },
{
}

/// The send path gets the parameters as they were decided, every time.
pub proof fn law_the_plan_is_handed_over_whole(b: Binding, last: AppliedKnobs, a: RadioAllocation)
    ensures
        b.plan ==> command_at(b, last, a, Stage::Plan) == Some(Command::StorePlan(a.params)),
        !b.plan ==> command_at(b, last, a, Stage::Plan) is None,
        command_at(b, last, a, Stage::Done) is None,
{
}

/// A pass skips nothing that is due: the command it gives belongs to the earliest stage
/// from its start on at which one is due, and it ends only where none is.
pub proof fn law_a_pass_skips_nothing(
    b: Binding,
    last: AppliedKnobs,
    a: RadioAllocation,
    from: Stage,
    s: Stage,
)
    requires
        stages_left(s) <= stages_left(from),
        command_at(b, last, a, s) is Some,
    ensures
        match due_from(b, last, a, from) {
            Some((at, c)) => {
                &&& command_at(b, last, a, at) == Some(c)
                &&& stages_left(s) <= stages_left(at) <= stages_left(from)
            },
            None => false,
        },
    decreases stages_left(from),
{
    if command_at(b, last, a, from) is None {
        law_a_pass_skips_nothing(b, last, a, behind(from), s);
    }
}

/// A pass gives only what is due, at the stage where it is.
pub proof fn law_a_pass_gives_what_is_due(
    b: Binding,
    last: AppliedKnobs,
    a: RadioAllocation,
    from: Stage,
)
    ensures
        due_from(b, last, a, from) matches Some((at, c)) ==> command_at(b, last, a, at) == Some(c)
            && stages_left(at) <= stages_left(from),
    decreases stages_left(from),
{
    if from != Stage::Done && command_at(b, last, a, from) is None {
        law_a_pass_gives_what_is_due(b, last, a, behind(from));
    }
}

/// Every stage is walked: each step goes on by exactly one, and ten lead from the rate
/// to the end.
pub proof fn law_stages_are_walked_one_by_one(s: Stage, t: Stage)
    ensures
        s != Stage::Done ==> stages_left(behind(s)) + 1 == stages_left(s),
        behind(Stage::Done) == Stage::Done,
        stages_left(s) == stages_left(t) ==> s == t,
        stages_left(Stage::Done) == 0,
        stages_left(Stage::Rate) == 10,
        stages_left(Stage::Channel) > stages_left(Stage::PowerDbm) > stages_left(Stage::Power)
            > stages_left(Stage::Plan),
{
}

/// What was carried out is remembered as it was, in its own knob, and nothing else
/// changes; rate, parity and plan are not remembered.
pub proof fn law_a_command_is_remembered_as_it_was(last: AppliedKnobs, c: Command)
    ensures
        ({
            let k = recorded(last, c);
            &&& k.channel == (match c {
                Command::SetChannel(ch, bw) => Some(Tuning { channel: ch, bw }),
                _ => last.channel,
            })
            &&& k.csd == (if c is SetCsd {
                Some(c->SetCsd_0)
            } else {
                last.csd
            })
            &&& k.edcca == (if c is SetEdccaIgnore {
                Some(c->SetEdccaIgnore_0)
            } else {
                last.edcca
            })
            &&& k.power == (if c is SetPower {
                Some(c->SetPower_0)
            } else {
                last.power
            })
            &&& k.power_dbm == (if c is SetPowerDbm {
                Some(c->SetPowerDbm_0)
            } else {
                last.power_dbm
            })
            &&& k.sf == (if c is SetSpreadingFactor {
                Some(c->SetSpreadingFactor_0)
            } else {
                last.sf
            })
            &&& k.cr == (if c is SetCodingRate {
                Some(c->SetCodingRate_0)
            } else {
                last.cr
            })
        }),
{
}

/// What the two kinds of radio take: the medium's bearer a rate, parity where it codes,
/// and dBm; the one on the USB bus its knobs and the plan, and power by index alone.
pub proof fn law_what_a_radio_takes(m: MediumActuator, u: LibUsbActuator)
    ensures
        m.binding().rate && m.binding().dbm && !m.binding().plan,
        m.binding().parity_floor == m.fec_floor,
        m.binding().knobs == m.knobs,
        !u.binding().rate && !u.binding().dbm && u.binding().plan && u.binding().knobs,
        u.binding().parity_floor is None,
{
}

/// After a pass without a failure the radio has what was decided, knob by knob, and
/// what was not decided is as it was.
pub proof fn law_a_pass_brings_the_decision_onto_the_radio(
    b: Binding,
    last: AppliedKnobs,
    a: RadioAllocation,
)
    requires
        b.knobs,
    ensures
        ({
            let k = settled(b, last, a, Stage::Rate, true);
            &&& a.channel matches Some(ch) ==> (k.channel matches Some(t) && t.channel == ch && (
            a.params.bw == Some(t.bw) || a.params.bw is None && t.bw == 0))
            &&& a.channel is None ==> k.channel == last.channel
            &&& k.csd == Some(a.params.csd)
            &&& k.edcca == Some(a.params.edcca_ignore)
            &&& b.dbm && a.params.tx_power_dbm is Some ==> k.power_dbm == a.params.tx_power_dbm
                && k.power == last.power
            &&& a.params.tx_power is Some && (!b.dbm || a.params.tx_power_dbm is None) ==> k.power
                == a.params.tx_power
            &&& a.params.tx_power is None ==> k.power == last.power
            &&& !b.dbm || a.params.tx_power_dbm is None ==> k.power_dbm == last.power_dbm
            &&& k.sf == (if a.params.spreading_factor is Some {
                a.params.spreading_factor
            } else {
                last.sf
            })
            &&& k.cr == (if a.params.coding_rate is Some {
                a.params.coding_rate
            } else {
                last.cr
            })
        }),
{
    lemma_settled(b, last, a, Stage::Rate, true);
}

/// Nothing is taken to stand on a radio that no command was given to yet.
pub proof fn law_nothing_stands_on_a_fresh_radio()
    ensures
        AppliedKnobs::none().channel is None,
        AppliedKnobs::none().csd is None,
        AppliedKnobs::none().edcca is None,
        AppliedKnobs::none().power is None,
        AppliedKnobs::none().power_dbm is None,
        AppliedKnobs::none().sf is None,
        AppliedKnobs::none().cr is None,
{
}

} // verus!
