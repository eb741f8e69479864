//! How the rate of the next frame is chosen.

use vstd::prelude::*;

verus! {

/// The signal strength taken before any was heard, in dBm.
pub const START_RSSI_DBM: i8 = -70;

/// An exact modulation and coding rate.
#[derive(Debug, Clone, Copy, PartialEq, Eq, Structural)]
pub struct McsDescriptor {
    /// The rate index.
    pub index: u8,
    /// A short guard interval.
    pub short_gi: bool,
    /// A VHT rate.
    pub vht: bool,
    /// Spatial streams.
    pub nss: u8,
    /// Space-time block coding.
    pub stbc: bool,
    /// Low-density parity-check coding.
    pub ldpc: bool,
}

/// The rate used where no plan decides.
#[derive(Debug, Clone, Copy, PartialEq, Eq, Structural)]
pub enum McsPolicy {
    /// Always this rate.
    Fixed(McsDescriptor),
    /// The rate that suits the signal last heard.
    Adaptive,
}

/// What the control plane decided for a radio's frames.
#[derive(Debug, Clone, Copy, PartialEq, Eq, Structural)]
pub struct PlannedTx {
    /// The rate.
    pub mcs: Option<McsDescriptor>,
    /// The frames to bundle; `Some(0)` is not to bundle at all.
    pub amsdu_msdus: Option<u16>,
    /// The parity frames per generation.
    pub link_fec_redundancy: Option<u16>,
}

/// How the rate of the next frame is chosen: a decided rate, else the policy.
#[derive(Debug, Clone, Copy, PartialEq, Eq, Structural)]
pub struct RatePolicy {
    /// The rate used where no plan decides.
    pub policy: McsPolicy,
    /// The signal strength last heard, in dBm.
    pub last_rssi: i8,
    /// What the control plane decided, where it did.
    pub planned: Option<PlannedTx>,
}

impl RatePolicy {
    /// The rate of the next frame, where `adaptive` suits the signal last heard.
    pub open spec fn selected(&self, adaptive: McsDescriptor) -> McsDescriptor {
        if self.planned is Some && self.planned->0.mcs is Some {
            self.planned->0.mcs->0
        } else {
            match self.policy {
                McsPolicy::Fixed(d) => d,
                McsPolicy::Adaptive => adaptive,
            }
        }
    }

    /// The decided number of frames to bundle, where there is one.
    pub open spec fn bundle(&self) -> Option<u16> {
        match self.planned {
            Some(p) => p.amsdu_msdus,
            None => None,
        }
    }

    /// The decided parity, where there is one.
    pub open spec fn parity(&self) -> Option<u16> {
        match self.planned {
            Some(p) => p.link_fec_redundancy,
            None => None,
        }
    }

    /// A policy that has heard nothing and has no plan. The signal starts at the
    /// conservative default.
    pub fn new(policy: McsPolicy) -> (p: Self)
        ensures
            p == (RatePolicy { policy, last_rssi: START_RSSI_DBM, planned: None }),
    {
        RatePolicy { policy, last_rssi: START_RSSI_DBM, planned: None }
    }

    /// Takes the control plane's decision, or that there is none.
    pub fn set_planned(&mut self, planned: Option<PlannedTx>)
        ensures
            *final(self) == (RatePolicy { planned, ..*old(self) }),
    {
        self.planned = planned;
    }

    /// Takes the signal strength of a received frame.
    pub fn observe_rssi(&mut self, dbm: i8)
        ensures
            *final(self) == (RatePolicy { last_rssi: dbm, ..*old(self) }),
    {
        self.last_rssi = dbm;
    }

    /// The rate of the next frame, where `adaptive` suits the signal last heard.
    pub fn select(&self, adaptive: McsDescriptor) -> (d: McsDescriptor)
        ensures
            d == self.selected(adaptive),
    {
        if let Some(p) = self.planned {
            if let Some(d) = p.mcs {
                return d;
            }
        }
        match self.policy {
            McsPolicy::Fixed(d) => d,
            McsPolicy::Adaptive => adaptive,
        }
    }

    /// The decided number of frames to bundle. `Some(0)` forbids bundling; `None`
    /// has no opinion.
    pub fn planned_amsdu_msdus(&self) -> (n: Option<u16>)
        ensures
            n == self.bundle(),
    {
        match self.planned {
            Some(p) => p.amsdu_msdus,
            None => None,
        }
    }

    /// The decided parity frames per generation.
    pub fn planned_redundancy(&self) -> (n: Option<u16>)
        ensures
            n == self.parity(),
    {
        match self.planned {
            Some(p) => p.link_fec_redundancy,
            None => None,
        }
    }
}

/// A decided rate wins over every policy and every signal.
pub proof fn law_the_plan_outranks_the_policy(
    p: RatePolicy,
    q: RatePolicy,
    d: McsDescriptor,
    a: McsDescriptor,
    b: McsDescriptor,
)
    requires
        p.planned == q.planned,
        p.planned is Some,
        p.planned->0.mcs == Some(d),
    ensures
        p.selected(a) == d,
        q.selected(b) == d,
{
}

/// Without a decided rate the policy counts: its own rate where it is fixed, and the one
/// that suits the signal where it adapts.
pub proof fn law_the_policy_counts_without_a_plan(p: RatePolicy, d: McsDescriptor, a: McsDescriptor)
    requires
        p.planned is None || p.planned->0.mcs is None,
    ensures
        p.policy == McsPolicy::Fixed(d) ==> p.selected(a) == d,
        p.policy == McsPolicy::Adaptive ==> p.selected(a) == a,
{
}

/// A plan's numbers for bundles and parity are read as they were decided, and there are
/// none without a plan.
pub proof fn law_a_plan_is_read_as_decided(p: RatePolicy, t: PlannedTx)
    ensures
        p.planned == Some(t) ==> p.bundle() == t.amsdu_msdus && p.parity() == t.link_fec_redundancy,
        p.planned is None ==> p.bundle() is None && p.parity() is None,
{
}

/// Before any signal is heard a conservative one is taken.
pub proof fn law_the_signal_to_start_from()
    ensures
        START_RSSI_DBM == -70,
{
}

} // verus!
