//! The slot scheduler of a face: whose turn a slot is, when an idle slot may be
//! claimed, and what received frames tell about both.
//!
//! A slot is owned by name. Where claiming is on, another name with traffic may
//! take a slot whose owner is in range and silent, and yields it as soon as the
//! owner speaks. The slot geometry itself is read by the caller and handed in as a
//! [`SlotReading`].

use vstd::prelude::*;

use crate::addressing;
use crate::addressing::sender_tag;
use crate::clock;
use crate::clock::{ClockSource, TimeStatus, TIME_BEACON_MAGIC};
use crate::groups;
use crate::groups::{GroupTable, LeaseClass};
use crate::name_gate;
use crate::name_gate::{filter_octets, same_address, BROADCAST};
use crate::octets;
use crate::octets::saturating_product;
use crate::sched_config;
use crate::sched_config::{HopPlan, SchedVars, SlotPlan};
use crate::tier0;
use crate::tier0::PrefixFilter;

verus! {

/// Most unregistered groups that are remembered. A bound on memory that any
/// sender can fill.
pub const LEARNED_GROUP_CAP: usize = 64;

/// How long a slot owner counts as in range after it was last heard, in
/// microseconds.
pub const PRESENCE_WINDOW_US: u64 = 5_000_000;

/// How many frame times wide the claim draw is.
pub const CCLF_SPREAD: u64 = 8;

/// Turns the draw from epoch to epoch.
pub const EPOCH_MIX: u64 = 0x9e37_79b9_7f4a_7c15;

/// Turns the slot map from channel to channel.
pub const CHANNEL_MIX: u64 = 0x9e37_79b9;

// ---------------------------------------------------------------------------
// The draw
// ---------------------------------------------------------------------------

/// How long it takes to hear that another claimant has started.
pub open spec fn detection_us(airtime_us: u64) -> int {
    if airtime_us == 0 {
        1
    } else {
        airtime_us as int
    }
}

/// The width of the draw: a few detection times, and never over half the slot.
pub open spec fn draw_window(slot_us: u64, airtime_us: u64) -> int {
    let half: int = if slot_us / 2 == 0 { 1 } else { (slot_us / 2) as int };
    let spread = octets::capped_product(detection_us(airtime_us), CCLF_SPREAD as int);
    let wide = if spread < 2 { 2 } else { spread };
    if half < wide {
        half
    } else {
        wide
    }
}

/// The name's draw in this epoch.
pub open spec fn raw_draw(prefix_hash: u64, epoch: u64, window: int) -> int {
    let mixed = prefix_hash ^ epoch.wrapping_mul(EPOCH_MIX);
    (mixed ^ (mixed >> 32)) as int % window
}

/// How often the window can be halved, at most four times, and still span two
/// detection times.
pub open spec fn halvings(window: int, detect: int) -> int {
    if window / 16 >= 2 * detect {
        4
    } else if window / 8 >= 2 * detect {
        3
    } else if window / 4 >= 2 * detect {
        2
    } else if window / 2 >= 2 * detect {
        1
    } else {
        0
    }
}

/// The value halved so many times, up to four.
pub open spec fn halved(value: int, times: int) -> int {
    if times <= 0 {
        value
    } else if times == 1 {
        value / 2
    } else if times == 2 {
        value / 4
    } else if times == 3 {
        value / 8
    } else {
        value / 16
    }
}

/// How long a claimant waits before it takes an idle slot: its draw, halved once
/// per frame of backlog as far as the window allows, and at least one.
pub open spec fn claim_jitter(
    prefix_hash: u64,
    slot_us: u64,
    epoch: u64,
    airtime_us: u64,
    backlog: u32,
) -> int {
    let window = draw_window(slot_us, airtime_us);
    let most = halvings(window, detection_us(airtime_us));
    let times = if backlog < most { backlog as int } else { most };
    let wait = halved(raw_draw(prefix_hash, epoch, window), times);
    if wait < 1 {
        1
    } else {
        wait
    }
}

/// The wait of a claimant in the election for an idle slot, in microseconds.
pub fn cclf_jitter_us(
    prefix_hash: u64,
    slot_us: u64,
    epoch: u64,
    airtime_us: u64,
    backlog: u32,
) -> (wait: u64)
    ensures
        wait == claim_jitter(prefix_hash, slot_us, epoch, airtime_us, backlog),
        1 <= wait <= 0x8000_0000_0000_0000,
{
    let detect: u64 = if airtime_us == 0 { 1 } else { airtime_us };
    let half: u64 = if slot_us / 2 == 0 { 1 } else { slot_us / 2 };
    let spread: u64 = saturating_product(detect, CCLF_SPREAD);
    let wide: u64 = if spread < 2 { 2 } else { spread };
    let window: u64 = if half < wide { half } else { wide };
    let mixed: u64 = prefix_hash ^ epoch.wrapping_mul(EPOCH_MIX);
    let draw: u64 = (mixed ^ (mixed >> 32)) % window;
    let band: u64 = saturating_product(detect, 2);
    let mut most: u32 = 0;
    let mut left: u64 = window;
    while most < 4 && left / 2 >= band
        invariant
            most <= 4,
            window <= 0x8000_0000_0000_0000,
            band == octets::capped_product(detect as int, 2),
            detect == detection_us(airtime_us),
            left == halved(window as int, most as int),
            most > 0 ==> left >= 2 * detect,
        decreases 4 - most,
    {
        left = left / 2;
        most = most + 1;
    }
    assert(most == halvings(window as int, detect as int));
    let times: u32 = if backlog < most { backlog } else { most };
    let wait: u64 = if times == 0 {
        draw
    } else if times == 1 {
        draw / 2
    } else if times == 2 {
        draw / 4
    } else if times == 3 {
        draw / 8
    } else {
        draw / 16
    };
    if wait < 1 {
        1
    } else {
        wait
    }
}

/// The wait lies within the window, so within half the slot and within a few
/// detection times.
pub proof fn law_draw_is_bounded(
    prefix_hash: u64,
    slot_us: u64,
    epoch: u64,
    airtime_us: u64,
    backlog: u32,
)
    ensures
        1 <= claim_jitter(prefix_hash, slot_us, epoch, airtime_us, backlog),
        claim_jitter(prefix_hash, slot_us, epoch, airtime_us, backlog) <= draw_window(
            slot_us,
            airtime_us,
        ),
        slot_us >= 2 ==> draw_window(slot_us, airtime_us) <= slot_us / 2,
        draw_window(slot_us, airtime_us) <= CCLF_SPREAD * detection_us(airtime_us),
{
    let window = draw_window(slot_us, airtime_us);
    let mixed = prefix_hash ^ epoch.wrapping_mul(EPOCH_MIX);
    let v = (mixed ^ (mixed >> 32)) as int;
    assert(0 <= v % window < window) by (nonlinear_arith)
        requires
            window > 0,
    ;
}

/// More backlog never lengthens the wait.
pub proof fn law_backlog_never_lengthens_the_draw(
    prefix_hash: u64,
    slot_us: u64,
    epoch: u64,
    airtime_us: u64,
    less: u32,
    more: u32,
)
    requires
        less <= more,
    ensures
        claim_jitter(prefix_hash, slot_us, epoch, airtime_us, more) <= claim_jitter(
            prefix_hash,
            slot_us,
            epoch,
            airtime_us,
            less,
        ),
{
    let window = draw_window(slot_us, airtime_us);
    let mixed = prefix_hash ^ epoch.wrapping_mul(EPOCH_MIX);
    let v = (mixed ^ (mixed >> 32)) as int;
    assert(0 <= v % window) by (nonlinear_arith)
        requires
            window > 0,
    ;
}

/// Backlog never squeezes claimants into a band in which they cannot hear each
/// other: what is left of the window spans two detection times, or it was not
/// halved at all.
pub proof fn law_backlog_keeps_an_ordering(slot_us: u64, airtime_us: u64)
    ensures
        ({
            let window = draw_window(slot_us, airtime_us);
            let most = halvings(window, detection_us(airtime_us));
            0 <= most <= 4 && (most > 0 ==> halved(window, most) >= 2 * detection_us(airtime_us))
        }),
{
}

// ---------------------------------------------------------------------------
// State
// ---------------------------------------------------------------------------

/// What a scheduler was configured with.
#[derive(Debug, Clone, Copy, PartialEq, Eq, Structural)]
pub struct SchedSettings {
    /// The clock that feeds the slot epoch.
    pub clock_source: ClockSource,
    /// This node broadcasts the time beacon.
    pub master: bool,
    /// Idle slots may be claimed.
    pub claimable: bool,
    /// A slot may be claimed although its owner was never heard.
    pub claim_unknown: bool,
    /// The most base slots that one lease holds.
    pub lease_max: u64,
    /// This node's number in the election of a network reference, lowest first.
    pub node_id: u64,
}

/// An unregistered group that was parsed once.
#[derive(Debug, Clone, Copy)]
pub struct LearnedGroup {
    /// The filter octets that it was first seen under. It is found again by those of
    /// the first two addresses.
    pub wire: [u8; 16],
    /// Its slot key.
    pub hash: u64,
    /// When it was last heard.
    pub seen: u64,
}

/// What received frames have told.
pub struct Evidence {
    /// When a frame of this scheduling domain was last heard, or 0.
    pub last_domain_rx: u64,
    /// Frames heard that were not of this domain.
    pub ambient_rx: u64,
    /// Per slot, when a frame of the group that owns it was last heard, or 0.
    pub heard_by_slot: Vec<u64>,
    /// Per slot, the nonce of the sender that was heard, or 0 where unknown.
    pub nonce_by_slot: Vec<u64>,
}

/// The claim in progress, and how claims went.
#[derive(Debug, Clone, Copy, PartialEq, Eq, Structural)]
pub struct ClaimState {
    /// How often a claim was tried.
    pub attempts: u64,
    /// How often one was won, or a hold continued.
    pub wins: u64,
    /// How often a draw was waited out for a slot.
    pub elections: u64,
    /// How often such a draw won the slot.
    pub elections_won: u64,
    /// How often a frame went out in a slot that was held already.
    pub holds: u64,
    /// Where the slot began that the current lease started in, or the largest
    /// value without a lease.
    pub hold_slot_start: u64,
    /// When the current lease ends, or 0.
    pub lease_until: u64,
}

/// The slot schedule read at one instant, for one frame.
#[derive(Debug, Clone, Copy, PartialEq, Eq, Structural)]
pub struct SlotReading {
    /// The instant, in common-view microseconds.
    pub now_us: u64,
    /// The width of a slot.
    pub slot_us: u64,
    /// Slots in a superframe.
    pub slots: u64,
    /// The current slot's index.
    pub current: usize,
    /// When the current slot began.
    pub start_us: u64,
    /// What is left of the current slot.
    pub remaining_us: u64,
    /// The current slot's running number.
    pub epoch: u64,
    /// The current slot is a reserved lane.
    pub reserved: bool,
    /// The frame can be sent within the current slot.
    pub fits: bool,
    /// The slot under which the frame's group counts its backlog.
    pub home: usize,
    /// The frame's group owns the current slot.
    pub owns: bool,
    /// How long until the frame's group owns a slot.
    pub wait_us: u64,
    /// When a lease taken now would end.
    pub lease_until_us: u64,
}

/// What became of the slot that a node may be holding.
#[derive(Debug, Clone, Copy, PartialEq, Eq, Structural)]
pub enum HoldStatus {
    /// The slot is held and there is room.
    Continue,
    /// It was held, and the burst must stop.
    Ended,
    /// No slot is held.
    NotHeld,
}

/// What a claimant does next.
#[derive(Debug, Clone, Copy, PartialEq, Eq, Structural)]
pub enum ClaimStep {
    /// The current slot cannot be taken.
    Refused,
    /// Transmit now.
    Granted,
    /// Wait so many microseconds, then see whether the slot is still idle.
    Contend(u64),
}

/// What a gated frame does next.
#[derive(Debug, Clone, Copy, PartialEq, Eq, Structural)]
pub enum GateMove {
    /// Transmit now, in the frame's own slot.
    Transmit,
    /// Try to claim the current slot.
    Contend,
}

/// How far a gated frame is.
#[derive(Debug, Clone, Copy, PartialEq, Eq, Structural)]
pub enum GatePhase {
    /// It has just been offered.
    Arrived,
    /// It was turned away once, and counts as backlog.
    Waiting,
}

/// Which group a frame's octets speak of.
#[derive(Debug, Clone, Copy, PartialEq, Eq, Structural)]
pub enum Attribution {
    /// None: the frame is not of this scheduling domain.
    Ambient,
    /// This slot key and class.
    Known(u64, LeaseClass),
    /// One that only the frame's name tells.
    Novel,
}

/// A frame of this scheduling domain.
#[derive(Debug, Clone, Copy, PartialEq, Eq, Structural)]
pub struct Heard {
    /// Its group's slot key on the current channel.
    pub keyed: u64,
    /// Its group's lease class.
    pub class: LeaseClass,
    /// The nonce of its sender, or 0 where unknown.
    pub nonce: u64,
}

/// The scheduler of a face.
pub struct FaceScheduler {
    /// What it was configured with.
    pub settings: SchedSettings,
    /// The slot schedule, where frames take turns.
    pub slot: Option<SlotPlan>,
    /// The hop schedule, where frames change channels.
    pub hop: Option<HopPlan>,
    /// The registered groups, where a table is attached.
    pub groups: Option<GroupTable>,
    /// The unregistered groups that were parsed once.
    pub learned: Vec<LearnedGroup>,
    /// The channel last tuned to.
    pub current_ch: u8,
    /// What received frames have told.
    pub evidence: Evidence,
    /// Per slot, the frames of its group that had to wait since the group's last
    /// turn.
    pub deferred_by_slot: Vec<u32>,
    /// The claim in progress.
    pub claim: ClaimState,
    /// The hardware offset onto the mesh timeline, once a beacon gave one.
    pub cv_hw: Option<i64>,
}

/// The octets of the first two addresses, which an unregistered group is known by.
/// They are at hand whether or not the third address was captured.
pub open spec fn pair(w: Seq<u8>) -> Seq<u8> {
    w.take(12)
}

/// No two learned groups have the same octets in the first two addresses.
pub open spec fn distinct(learned: Seq<LearnedGroup>) -> bool {
    forall|i: int, j: int|
        0 <= i < j < learned.len() ==> pair((#[trigger] learned[i]).wire@) != pair(
            (#[trigger] learned[j]).wire@,
        )
}

/// The table's groups, where there is one.
pub open spec fn table_of(groups: Option<GroupTable>) -> Seq<groups::Group> {
    match groups {
        Some(t) => t@,
        None => Seq::empty(),
    }
}

impl FaceScheduler {
    /// There is one cell of each kind per slot, and the learned groups keep to
    /// their cap.
    pub open spec fn wf(&self) -> bool {
        &&& self.deferred_by_slot.len() > 0
        &&& self.evidence.heard_by_slot.len() == self.deferred_by_slot.len()
        &&& self.evidence.nonce_by_slot.len() == self.deferred_by_slot.len()
        &&& self.learned.len() <= LEARNED_GROUP_CAP
        &&& distinct(self.learned@)
    }

    /// Nothing changed but what frames have told.
    pub open spec fn same_but_evidence(&self, other: Self) -> bool {
        &&& self.settings == other.settings
        &&& self.slot == other.slot
        &&& self.hop == other.hop
        &&& self.groups == other.groups
        &&& self.current_ch == other.current_ch
        &&& self.deferred_by_slot == other.deferred_by_slot
        &&& self.claim == other.claim
        &&& self.cv_hw == other.cv_hw
    }

    /// Nothing changed but the claim and the backlog.
    pub open spec fn same_but_claim(&self, other: Self) -> bool {
        &&& self.settings == other.settings
        &&& self.slot == other.slot
        &&& self.hop == other.hop
        &&& self.groups == other.groups
        &&& self.learned == other.learned
        &&& self.current_ch == other.current_ch
        &&& self.evidence == other.evidence
        &&& self.cv_hw == other.cv_hw
    }

    /// Nothing was heard yet and nothing is held. There is a cell of each kind for
    /// each of `slots` slots.
    pub open spec fn is_idle(&self, slots: int) -> bool {
        &&& self.learned@.len() == 0
        &&& self.current_ch == u8::MAX
        &&& self.evidence.last_domain_rx == 0
        &&& self.evidence.ambient_rx == 0
        &&& self.deferred_by_slot@ == Seq::new(slots as nat, |i: int| 0u32)
        &&& self.evidence.heard_by_slot@ == Seq::new(slots as nat, |i: int| 0u64)
        &&& self.evidence.nonce_by_slot@ == Seq::new(slots as nat, |i: int| 0u64)
        &&& self.claim == ClaimState {
            attempts: 0,
            wins: 0,
            elections: 0,
            elections_won: 0,
            holds: 0,
            hold_slot_start: u64::MAX,
            lease_until: 0,
        }
        &&& self.cv_hw is None
    }

    /// A scheduler that has heard nothing and holds nothing.
    pub fn new(settings: SchedSettings, slot: Option<SlotPlan>, hop: Option<HopPlan>) -> (s: Self)
        ensures
            s.wf(),
            s.settings == settings,
            s.slot == slot,
            s.hop == hop,
            s.groups is None,
            s.is_idle(sched_config::cells(slot)),
    {
        let n: usize = match &slot {
            Some(p) => if p.slots as usize == 0 {
                1
            } else {
                p.slots as usize
            },
            None => 1,
        };
        let s = FaceScheduler {
            settings,
            slot,
            hop,
            groups: None,
            learned: Vec::new(),
            current_ch: u8::MAX,
            evidence: Evidence {
                last_domain_rx: 0,
                ambient_rx: 0,
                heard_by_slot: vec![0u64; n],
                nonce_by_slot: vec![0u64; n],
            },
            deferred_by_slot: vec![0u32; n],
            claim: ClaimState {
                attempts: 0,
                wins: 0,
                elections: 0,
                elections_won: 0,
                holds: 0,
                hold_slot_start: u64::MAX,
                lease_until: 0,
            },
            cv_hw: None,
        };
        proof {
            assert(s.deferred_by_slot@ =~= Seq::new(n as nat, |i: int| 0u32));
            assert(s.evidence.heard_by_slot@ =~= Seq::new(n as nat, |i: int| 0u64));
            assert(s.evidence.nonce_by_slot@ =~= Seq::new(n as nat, |i: int| 0u64));
        }
        s
    }

    /// Builds a scheduler from the values of its environment variables. There is
    /// none where neither a slot nor a hop schedule can be read from them.
    pub fn from_env(vars: &SchedVars) -> (r: Option<Self>)
        ensures
            match r {
                Some(s) => {
                    &&& s.wf()
                    &&& s.settings == vars.settings()
                    &&& s.slot == vars.slot_plan()
                    &&& sched_config::hop_view(s.hop) == vars.hop_plan()
                    &&& s.slot is Some || s.hop is Some
                    &&& s.groups is None
                    &&& s.is_idle(sched_config::cells(s.slot))
                },
                None => vars.slot_plan() is None && vars.hop_plan() is None,
            },
    {
        let slot: Option<SlotPlan> = vars.read_slot();
        let hop: Option<HopPlan> = vars.read_hop();
        if slot.is_none() && hop.is_none() {
            return None;
        }
        Some(FaceScheduler::new(vars.read_settings(), slot, hop))
    }

    /// Drops a hop schedule that the radio cannot serve: `can_hop` says whether it
    /// can at this dwell, and is `None` where its cost was never measured.
    pub fn vet_hop(self, can_hop: Option<bool>) -> (s: Self)
        ensures
            s == (FaceScheduler {
                hop: if can_hop == Some(true) {
                    self.hop
                } else {
                    None
                },
                ..self
            }),
    {
        match can_hop {
            Some(true) => self,
            _ => FaceScheduler { hop: None, ..self },
        }
    }

    /// Attaches the registered groups.
    pub fn with_groups(self, groups: GroupTable) -> (s: Self)
        ensures
            s == (FaceScheduler { groups: Some(groups), ..self }),
    {
        FaceScheduler { groups: Some(groups), ..self }
    }
}

// ---------------------------------------------------------------------------
// Presence
// ---------------------------------------------------------------------------

/// How long evidence of presence holds, with two superframes as a floor.
pub open spec fn presence_window(slot_us: u64, slots: u64) -> int {
    let turns = octets::capped_product(octets::capped_product(slot_us as int, slots as int), 2);
    if turns > PRESENCE_WINDOW_US {
        turns
    } else {
        PRESENCE_WINDOW_US as int
    }
}

/// Something was heard at `t`, and not too long ago.
pub open spec fn is_fresh(t: u64, now: u64, window: int) -> bool {
    t != 0 && now - t <= window
}

/// Slot `k`'s owner is in earshot: its group was heard lately, from a sender that
/// is not also heard on another slot. A sender that serves several groups may be a
/// relay, and vouches for nobody else. An unknown sender is taken as the owner.
pub open spec fn owner_evident(
    heard: Seq<u64>,
    nonces: Seq<u64>,
    k: int,
    now: u64,
    window: int,
) -> bool {
    &&& 0 <= k < heard.len()
    &&& is_fresh(heard[k], now, window)
    &&& nonces[k] == 0 || forall|j: int|
        0 <= j < nonces.len() && j != k && #[trigger] nonces[j] == nonces[k] ==> !is_fresh(
            heard[j],
            now,
            window,
        )
}

impl FaceScheduler {
    /// Is there live evidence that slot `k`'s owner is in earshot?
    pub fn owner_in_range(&self, k: usize, now: u64, slot_us: u64, slots: u64) -> (r: bool)
        requires
            self.wf(),
        ensures
            r == owner_evident(
                self.evidence.heard_by_slot@,
                self.evidence.nonce_by_slot@,
                k as int,
                now,
                presence_window(slot_us, slots),
            ),
    {
        if k >= self.evidence.heard_by_slot.len() {
            return false;
        }
        let turns: u64 = saturating_product(saturating_product(slot_us, slots), 2);
        let window: u64 = if turns > PRESENCE_WINDOW_US { turns } else { PRESENCE_WINDOW_US };
        let last: u64 = self.evidence.heard_by_slot[k];
        if last == 0 || now.saturating_sub(last) > window {
            return false;
        }
        let nonce: u64 = self.evidence.nonce_by_slot[k];
        if nonce == 0 {
            return true;
        }
        let mut j: usize = 0;
        while j < self.evidence.nonce_by_slot.len()
            invariant
                j <= self.evidence.nonce_by_slot.len(),
                self.wf(),
                k < self.evidence.heard_by_slot.len(),
                window == presence_window(slot_us, slots),
                nonce == self.evidence.nonce_by_slot@[k as int],
                nonce != 0,
                forall|i: int|
                    0 <= i < j && i != k && #[trigger] self.evidence.nonce_by_slot@[i] == nonce
                        ==> !is_fresh(self.evidence.heard_by_slot@[i], now, window as int),
            decreases self.evidence.nonce_by_slot.len() - j,
        {
            if j != k && self.evidence.nonce_by_slot[j] == nonce {
                let t: u64 = self.evidence.heard_by_slot[j];
                if t != 0 && now.saturating_sub(t) <= window {
                    assert(self.evidence.nonce_by_slot@[j as int] == nonce);
                    return false;
                }
            }
            j = j + 1;
        }
        true
    }
}

/// An owner that was never heard is not in range: its silence permits nothing.
pub proof fn law_unheard_owner_is_never_in_range(
    heard: Seq<u64>,
    nonces: Seq<u64>,
    k: int,
    now: u64,
    window: int,
)
    requires
        0 <= k < heard.len() ==> heard[k] == 0,
    ensures
        !owner_evident(heard, nonces, k, now, window),
{
}

/// A sender that is heard on two slots within the window vouches for neither.
pub proof fn law_relay_vouches_for_nobody(
    heard: Seq<u64>,
    nonces: Seq<u64>,
    a: int,
    b: int,
    now: u64,
    window: int,
)
    requires
        heard.len() == nonces.len(),
        0 <= a < heard.len(),
        0 <= b < heard.len(),
        a != b,
        nonces[a] == nonces[b],
        nonces[a] != 0,
        is_fresh(heard[a], now, window),
        is_fresh(heard[b], now, window),
    ensures
        !owner_evident(heard, nonces, a, now, window),
        !owner_evident(heard, nonces, b, now, window),
{
}

/// Whoever was heard within the presence timeout is in range, however long the
/// slots are; whoever was not heard for longer than the window is not.
pub proof fn law_presence_outlives_a_silent_turn(
    heard: Seq<u64>,
    nonces: Seq<u64>,
    k: int,
    now: u64,
    slot_us: u64,
    slots: u64,
)
    requires
        heard.len() == nonces.len(),
        0 <= k < heard.len(),
        heard[k] != 0,
        nonces[k] == 0,
    ensures
        now - heard[k] <= PRESENCE_WINDOW_US ==> owner_evident(
            heard,
            nonces,
            k,
            now,
            presence_window(slot_us, slots),
        ),
        now - heard[k] > presence_window(slot_us, slots) ==> !owner_evident(
            heard,
            nonces,
            k,
            now,
            presence_window(slot_us, slots),
        ),
{
}

// ---------------------------------------------------------------------------
// Claims
// ---------------------------------------------------------------------------

/// The backlog counts with slot `k`'s spent. An index without a cell counts
/// nothing.
pub open spec fn spent(deferred: Seq<u32>, k: int) -> Seq<u32> {
    if 0 <= k < deferred.len() {
        deferred.update(k, 0)
    } else {
        deferred
    }
}

/// The backlog counts with one more frame waiting for slot `k`. A full count
/// stays full.
pub open spec fn postponed(deferred: Seq<u32>, k: int) -> Seq<u32> {
    if 0 <= k < deferred.len() && deferred[k] < u32::MAX {
        deferred.update(k, (deferred[k] + 1) as u32)
    } else {
        deferred
    }
}

/// The frames waiting for slot `k`.
pub open spec fn backlog(deferred: Seq<u32>, k: int) -> u32 {
    if 0 <= k < deferred.len() {
        deferred[k]
    } else {
        0
    }
}

impl FaceScheduler {
    /// What became of the slot that the node may be holding: a lease runs to its
    /// end, but a burst stops where the slot's owner has spoken, where a reserved lane
    /// begins and where the slot has no room left.
    pub open spec fn hold(&self, r: SlotReading) -> HoldStatus {
        let c = self.claim;
        if c.hold_slot_start == u64::MAX || r.now_us >= c.lease_until {
            HoldStatus::NotHeld
        } else if r.start_us > c.hold_slot_start && r.start_us >= c.lease_until {
            HoldStatus::NotHeld
        } else if self.evidence.last_domain_rx >= r.start_us || r.reserved || !r.fits {
            HoldStatus::Ended
        } else {
            HoldStatus::Continue
        }
    }

    /// The frame has no room in the current base slot, but the lease goes on behind
    /// it: the frame waits for the next boundary, and the lease stays.
    pub open spec fn outlasts_the_slot(&self, r: SlotReading) -> bool {
        &&& self.hold(r) == HoldStatus::Ended
        &&& self.evidence.last_domain_rx < r.start_us
        &&& !r.reserved
        &&& r.now_us + r.remaining_us < self.claim.lease_until
    }

    /// How long the frame's group would wait in the election for this slot.
    pub open spec fn jitter(&self, hash: u64, r: SlotReading, airtime: u64) -> int {
        claim_jitter(
            hash,
            r.slot_us,
            r.epoch,
            airtime,
            backlog(self.deferred_by_slot@, r.home as int),
        )
    }

    /// The slot is worth contending for: its owner is in range and silent, the
    /// frame's own turn is not next, and wait and frame fit into what is left.
    pub open spec fn worth_contending(&self, hash: u64, r: SlotReading, airtime: u64) -> bool {
        &&& self.settings.claim_unknown || owner_evident(
            self.evidence.heard_by_slot@,
            self.evidence.nonce_by_slot@,
            r.current as int,
            r.now_us,
            presence_window(r.slot_us, r.slots),
        )
        &&& self.evidence.last_domain_rx < r.start_us
        &&& r.wait_us > r.slot_us
        &&& r.remaining_us > self.jitter(hash, r, airtime) + airtime
    }

    /// The frame may claim at all: claiming is on, and neither a latency name nor
    /// a reserved lane is involved.
    pub open spec fn may_claim(&self, class: LeaseClass, r: SlotReading) -> bool {
        self.settings.claimable && class == LeaseClass::Bulk && !r.reserved
    }

    /// What the claimant does next.
    pub open spec fn claim_step(
        &self,
        hash: u64,
        class: LeaseClass,
        r: SlotReading,
        airtime: u64,
    ) -> ClaimStep {
        if !self.may_claim(class, r) {
            ClaimStep::Refused
        } else if self.hold(r) == HoldStatus::Continue {
            ClaimStep::Granted
        } else if self.outlasts_the_slot(r) {
            ClaimStep::Refused
        } else if self.worth_contending(hash, r, airtime) {
            ClaimStep::Contend(self.jitter(hash, r, airtime) as u64)
        } else {
            ClaimStep::Refused
        }
    }

    /// The claim state after that step.
    pub open spec fn claim_after(
        &self,
        hash: u64,
        class: LeaseClass,
        r: SlotReading,
        airtime: u64,
    ) -> ClaimState {
        let step = self.claim_step(hash, class, r, airtime);
        let tried = ClaimState {
            attempts: self.claim.attempts.wrapping_add(1),
            elections: if step is Contend {
                self.claim.elections.wrapping_add(1)
            } else {
                self.claim.elections
            },
            ..self.claim
        };
        if !self.may_claim(class, r) {
            self.claim
        } else {
            match self.hold(r) {
                HoldStatus::Continue => ClaimState {
                    wins: self.claim.wins.wrapping_add(1),
                    holds: self.claim.holds.wrapping_add(1),
                    ..tried
                },
                HoldStatus::Ended => if self.outlasts_the_slot(r) {
                    tried
                } else {
                    ClaimState { hold_slot_start: u64::MAX, lease_until: 0, ..tried }
                },
                HoldStatus::NotHeld => tried,
            }
        }
    }

    /// What became of the slot that the node may be holding?
    pub fn hold_status(&self, r: &SlotReading) -> (h: HoldStatus)
        ensures
            h == self.hold(*r),
    {
        let held: u64 = self.claim.hold_slot_start;
        let until: u64 = self.claim.lease_until;
        if held == u64::MAX || r.now_us >= until {
            return HoldStatus::NotHeld;
        }
        if r.start_us > held && r.start_us >= until {
            return HoldStatus::NotHeld;
        }
        if self.evidence.last_domain_rx >= r.start_us {
            return HoldStatus::Ended;
        }
        if r.reserved {
            return HoldStatus::Ended;
        }
        if !r.fits {
            return HoldStatus::Ended;
        }
        HoldStatus::Continue
    }

    /// The frames that wait for slot `k`.
    pub fn deferred_for(&self, k: usize) -> (n: u32)
        ensures
            n == backlog(self.deferred_by_slot@, k as int),
    {
        if k < self.deferred_by_slot.len() {
            self.deferred_by_slot[k]
        } else {
            0
        }
    }

    /// A frame of slot `k`'s group had to wait.
    pub fn note_deferred(&mut self, k: usize)
        requires
            old(self).wf(),
        ensures
            final(self).wf(),
            final(self).same_but_claim(*old(self)),
            final(self).claim == old(self).claim,
            final(self).deferred_by_slot@ == postponed(old(self).deferred_by_slot@, k as int),
    {
        if k < self.deferred_by_slot.len() {
            let n: u32 = self.deferred_by_slot[k];
            if n < u32::MAX {
                self.deferred_by_slot.set(k, n + 1);
            }
        }
    }

    /// Slot `k`'s group got its turn.
    pub fn note_sent(&mut self, k: usize)
        requires
            old(self).wf(),
        ensures
            final(self).wf(),
            final(self).same_but_claim(*old(self)),
            final(self).claim == old(self).claim,
            final(self).deferred_by_slot@ == spent(old(self).deferred_by_slot@, k as int),
    {
        if k < self.deferred_by_slot.len() {
            self.deferred_by_slot.set(k, 0);
        }
    }

    /// Begins an attempt to take the current slot: a hold continues at once, an
    /// idle slot is contended for after a wait. A hold that has to stop is given up,
    /// unless only the room ran out and the lease reaches beyond this slot.
    pub fn begin_claim(
        &mut self,
        hash: u64,
        class: LeaseClass,
        r: &SlotReading,
        airtime: u64,
    ) -> (step: ClaimStep)
        requires
            old(self).wf(),
        ensures
            final(self).wf(),
            step == old(self).claim_step(hash, class, *r, airtime),
            final(self).same_but_claim(*old(self)),
            final(self).claim == old(self).claim_after(hash, class, *r, airtime),
            final(self).deferred_by_slot@ == (if step == ClaimStep::Granted {
                spent(old(self).deferred_by_slot@, r.home as int)
            } else {
                old(self).deferred_by_slot@
            }),
    {
        if !self.settings.claimable || class == LeaseClass::Latency || r.reserved {
            return ClaimStep::Refused;
        }
        let status: HoldStatus = self.hold_status(r);
        self.claim.attempts = self.claim.attempts.wrapping_add(1);
        match status {
            HoldStatus::Continue => {
                self.claim.wins = self.claim.wins.wrapping_add(1);
                self.claim.holds = self.claim.holds.wrapping_add(1);
                self.note_sent(r.home);
                return ClaimStep::Granted;
            },
            HoldStatus::Ended => {
                if self.evidence.last_domain_rx < r.start_us && !r.reserved
                    && self.claim.lease_until - r.now_us > r.remaining_us {
                    return ClaimStep::Refused;
                }
                self.claim.hold_slot_start = u64::MAX;
                self.claim.lease_until = 0;
            },
            HoldStatus::NotHeld => {},
        }
        let wait: u64 = cclf_jitter_us(
            hash,
            r.slot_us,
            r.epoch,
            airtime,
            self.deferred_for(r.home),
        );
        let known: bool = self.settings.claim_unknown || self.owner_in_range(
            r.current,
            r.now_us,
            r.slot_us,
            r.slots,
        );
        let idle: bool = self.evidence.last_domain_rx < r.start_us;
        if known && idle && r.wait_us > r.slot_us && airtime < r.remaining_us && wait
            < r.remaining_us - airtime {
            self.claim.elections = self.claim.elections.wrapping_add(1);
            ClaimStep::Contend(wait)
        } else {
            ClaimStep::Refused
        }
    }

    /// Ends the wait of a contended claim. Where nobody spoke since the slot began
    /// it is won, and held as a lease.
    pub fn finish_claim(&mut self, r: &SlotReading) -> (won: bool)
        requires
            old(self).wf(),
        ensures
            final(self).wf(),
            won == (old(self).evidence.last_domain_rx < r.start_us),
            final(self).same_but_claim(*old(self)),
            won ==> {
                &&& final(self).claim == (ClaimState {
                    wins: old(self).claim.wins.wrapping_add(1),
                    elections_won: old(self).claim.elections_won.wrapping_add(1),
                    hold_slot_start: r.start_us,
                    lease_until: r.lease_until_us,
                    ..old(self).claim
                })
                &&& final(self).deferred_by_slot@ == spent(
                    old(self).deferred_by_slot@,
                    r.home as int,
                )
            },
            !won ==> *final(self) == *old(self),
    {
        if self.evidence.last_domain_rx >= r.start_us {
            return false;
        }
        self.claim.hold_slot_start = r.start_us;
        self.claim.lease_until = r.lease_until_us;
        self.claim.wins = self.claim.wins.wrapping_add(1);
        self.claim.elections_won = self.claim.elections_won.wrapping_add(1);
        self.note_sent(r.home);
        true
    }

    /// Looks at the current slot for a gated frame: in its own slot, with room, it
    /// is sent, and its group's backlog is spent. Otherwise it contends, whatever
    /// slot this is.
    pub fn gate_look(&mut self, r: &SlotReading) -> (m: GateMove)
        requires
            old(self).wf(),
        ensures
            final(self).wf(),
            m == (if r.owns && r.fits {
                GateMove::Transmit
            } else {
                GateMove::Contend
            }),
            final(self).same_but_claim(*old(self)),
            final(self).claim == old(self).claim,
            final(self).deferred_by_slot@ == (if r.owns && r.fits {
                spent(old(self).deferred_by_slot@, r.home as int)
            } else {
                old(self).deferred_by_slot@
            }),
    {
        if r.owns && r.fits {
            self.note_sent(r.home);
            GateMove::Transmit
        } else {
            GateMove::Contend
        }
    }

    /// The gated frame did not get the slot. The first time it starts to count as
    /// backlog and looks again at once; after that it sleeps to the next slot
    /// boundary, so that it contends once in every slot it passes. Returns how far
    /// the frame is now and how long it sleeps.
    pub fn gate_lost(&mut self, phase: GatePhase, home: usize, remaining_us: u64) -> (next: (
        GatePhase,
        u64,
    ))
        requires
            old(self).wf(),
        ensures
            final(self).wf(),
            final(self).same_but_claim(*old(self)),
            final(self).claim == old(self).claim,
            match phase {
                GatePhase::Arrived => {
                    &&& next == (GatePhase::Waiting, 0u64)
                    &&& final(self).deferred_by_slot@ == postponed(
                        old(self).deferred_by_slot@,
                        home as int,
                    )
                },
                GatePhase::Waiting => {
                    &&& next == (
                        GatePhase::Waiting,
                        if remaining_us == 0 {
                            1u64
                        } else {
                            remaining_us
                        },
                    )
                    &&& final(self).deferred_by_slot@ == old(self).deferred_by_slot@
                },
            },
    {
        match phase {
            GatePhase::Arrived => {
                self.note_deferred(home);
                (GatePhase::Waiting, 0)
            },
            GatePhase::Waiting => {
                let step: u64 = if remaining_us == 0 { 1 } else { remaining_us };
                (GatePhase::Waiting, step)
            },
        }
    }

    /// How often claims were tried and won.
    pub fn claim_counts(&self) -> (n: (u64, u64))
        ensures
            n == (self.claim.attempts, self.claim.wins),
    {
        (self.claim.attempts, self.claim.wins)
    }

    /// How often a draw was waited out, how often it won, and how often a frame
    /// continued a slot that was held.
    pub fn election_counts(&self) -> (n: (u64, u64, u64))
        ensures
            n == (self.claim.elections, self.claim.elections_won, self.claim.holds),
    {
        (self.claim.elections, self.claim.elections_won, self.claim.holds)
    }
}

/// A latency name never claims, and no name claims a reserved lane, idle or not:
/// such an attempt is refused, counts as none, and changes nothing.
pub proof fn law_lanes_are_inviolate(
    s: FaceScheduler,
    hash: u64,
    class: LeaseClass,
    r: SlotReading,
    airtime: u64,
)
    requires
        class == LeaseClass::Latency || r.reserved,
    ensures
        s.claim_step(hash, class, r, airtime) == ClaimStep::Refused,
        s.claim_after(hash, class, r, airtime) == s.claim,
{
}

/// Nobody transmits over an audible owner: once a frame of the domain was heard in
/// the current slot, a hold ends and no election starts.
pub proof fn law_no_claim_over_an_audible_owner(
    s: FaceScheduler,
    hash: u64,
    class: LeaseClass,
    r: SlotReading,
    airtime: u64,
)
    requires
        s.evidence.last_domain_rx >= r.start_us,
    ensures
        s.claim_step(hash, class, r, airtime) == ClaimStep::Refused,
        s.may_claim(class, r) && s.hold(r) != HoldStatus::NotHeld ==> s.claim_after(
            hash,
            class,
            r,
            airtime,
        ) == (ClaimState {
            attempts: s.claim.attempts.wrapping_add(1),
            hold_slot_start: u64::MAX,
            lease_until: 0,
            ..s.claim
        }),
{
}

/// A slot is never contended for without evidence of its owner, unless the node
/// was told to claim unknown slots.
pub proof fn law_contention_needs_evidence(
    s: FaceScheduler,
    hash: u64,
    class: LeaseClass,
    r: SlotReading,
    airtime: u64,
)
    requires
        s.claim_step(hash, class, r, airtime) is Contend,
        !s.settings.claim_unknown,
    ensures
        owner_evident(
            s.evidence.heard_by_slot@,
            s.evidence.nonce_by_slot@,
            r.current as int,
            r.now_us,
            presence_window(r.slot_us, r.slots),
        ),
        s.evidence.heard_by_slot@[r.current as int] != 0,
{
}

/// A claimant that waits its draw and then sends still ends within the slot.
pub proof fn law_contended_frame_fits(
    s: FaceScheduler,
    hash: u64,
    class: LeaseClass,
    r: SlotReading,
    airtime: u64,
)
    requires
        s.claim_step(hash, class, r, airtime) is Contend,
    ensures
        s.claim_step(hash, class, r, airtime)->Contend_0 + airtime < r.remaining_us,
        s.claim_step(hash, class, r, airtime)->Contend_0 >= 1,
{
    law_draw_is_bounded(
        hash,
        r.slot_us,
        r.epoch,
        airtime,
        backlog(s.deferred_by_slot@, r.home as int),
    );
}

/// A won slot carries a burst: right after a win, and as long as nobody of the
/// domain speaks, the lease runs, the frame fits and no lane begins, the next frame
/// is granted as a continuation, without another election.
pub proof fn law_a_won_slot_carries_a_burst(
    s: FaceScheduler,
    won_at: SlotReading,
    hash: u64,
    r: SlotReading,
    airtime: u64,
)
    requires
        s.settings.claimable,
        s.claim.hold_slot_start == won_at.start_us,
        s.claim.lease_until == won_at.lease_until_us,
        won_at.start_us < u64::MAX,
        won_at.start_us <= r.start_us <= r.now_us < won_at.lease_until_us,
        s.evidence.last_domain_rx < r.start_us,
        !r.reserved,
        r.fits,
    ensures
        s.claim_step(hash, LeaseClass::Bulk, r, airtime) == ClaimStep::Granted,
        s.claim_after(hash, LeaseClass::Bulk, r, airtime) == (ClaimState {
            attempts: s.claim.attempts.wrapping_add(1),
            wins: s.claim.wins.wrapping_add(1),
            holds: s.claim.holds.wrapping_add(1),
            ..s.claim
        }),
{
}

/// A won lease pays one election. A frame that finds no room in a base slot of the
/// lease is turned away without ending it or contending, and in a later base slot of
/// the lease, as long as nobody of the domain speaks there, no lane begins and there
/// is room, the burst goes on as a continuation.
pub proof fn law_a_lease_outlasts_a_full_slot(
    s: FaceScheduler,
    t: FaceScheduler,
    hash: u64,
    r: SlotReading,
    later: SlotReading,
    airtime: u64,
)
    requires
        s.settings.claimable,
        s.claim.hold_slot_start <= r.start_us,
        s.claim.hold_slot_start < u64::MAX,
        s.evidence.last_domain_rx < r.start_us,
        !r.reserved,
        !r.fits,
        r.now_us + r.remaining_us < s.claim.lease_until,
        t.same_but_claim(s),
        t.claim == s.claim_after(hash, LeaseClass::Bulk, r, airtime),
        r.start_us <= later.start_us <= later.now_us < s.claim.lease_until,
        !later.reserved,
        later.fits,
    ensures
        s.claim_step(hash, LeaseClass::Bulk, r, airtime) == ClaimStep::Refused,
        t.claim == (ClaimState { attempts: s.claim.attempts.wrapping_add(1), ..s.claim }),
        t.claim_step(hash, LeaseClass::Bulk, later, airtime) == ClaimStep::Granted,
        t.claim_after(hash, LeaseClass::Bulk, later, airtime).elections == s.claim.elections,
        t.claim_after(hash, LeaseClass::Bulk, later, airtime).holds == s.claim.holds.wrapping_add(
            1,
        ),
{
}

/// A lease is over at its end: no slot counts as held from then on.
pub proof fn law_a_lease_ends_by_itself(s: FaceScheduler, r: SlotReading)
    requires
        r.now_us >= s.claim.lease_until,
    ensures
        s.hold(r) == HoldStatus::NotHeld,
{
}

/// A turn spends a group's whole backlog, and leaves the backlog of other slots
/// alone; a wait adds to its own slot only.
pub proof fn law_backlog_is_per_group(deferred: Seq<u32>, k: int, other: int)
    requires
        0 <= k < deferred.len(),
        0 <= other < deferred.len(),
        k != other,
    ensures
        backlog(spent(deferred, k), k) == 0,
        backlog(spent(deferred, k), other) == backlog(deferred, other),
        backlog(postponed(deferred, k), k) >= backlog(deferred, k),
        deferred[k] < u32::MAX ==> backlog(postponed(deferred, k), k) == backlog(deferred, k) + 1,
        backlog(postponed(deferred, k), other) == backlog(deferred, other),
{
}

// ---------------------------------------------------------------------------
// What a received frame tells
// ---------------------------------------------------------------------------

/// The frame's octets could be a filter of this kind: the two reserved bits are
/// set, and between one and `FILL_CAP` others.
pub open spec fn is_filter(w: Seq<u8>) -> bool {
    &&& w[0] & tier0::RESERVED_MASK0 == tier0::RESERVED_MASK0
    &&& 0 < tier0::filter_bits(w).len() <= tier0::FILL_CAP
}

/// Where these octets stand among the learned groups, counted from `from`; the
/// number of groups where they do not.
pub open spec fn learned_at(learned: Seq<LearnedGroup>, w: Seq<u8>, from: int) -> int
    decreases learned.len() - from,
{
    if from < 0 || from >= learned.len() {
        learned.len() as int
    } else if pair(learned[from].wire@) == pair(w) {
        from
    } else {
        learned_at(learned, w, from + 1)
    }
}

/// The first of the least lately heard among the first `n` groups.
pub open spec fn oldest(learned: Seq<LearnedGroup>, n: int) -> int
    decreases n,
{
    if n <= 1 {
        0
    } else {
        let o = oldest(learned, n - 1);
        if learned[n - 1].seen < learned[o].seen {
            n - 1
        } else {
            o
        }
    }
}

/// The learned groups with this one added. At the cap the one that was silent for
/// longest gives way.
pub open spec fn with_learned(
    learned: Seq<LearnedGroup>,
    g: LearnedGroup,
) -> Seq<LearnedGroup> {
    if learned.len() >= LEARNED_GROUP_CAP {
        learned.remove(oldest(learned, learned.len() as int)).push(g)
    } else {
        learned.push(g)
    }
}

/// The learned groups with the `i`-th heard just now.
pub open spec fn refreshed(learned: Seq<LearnedGroup>, i: int, now: u64) -> Seq<LearnedGroup> {
    learned.update(i, LearnedGroup { seen: now, ..learned[i] })
}

/// Slot key and class of a name: those of the longest registered prefix, else the
/// key of its first component, as bulk. A name without a component has none.
pub open spec fn name_key(
    table: Seq<groups::Group>,
    name: Option<Seq<u8>>,
    first: Option<u64>,
) -> Option<(u64, LeaseClass)> {
    match name {
        None => None,
        Some(n) => match groups::key_for_name(table, n, 0) {
            Some(hc) => Some(hc),
            None => match first {
                Some(h) => Some((h, LeaseClass::Bulk)),
                None => None,
            },
        },
    }
}

/// The bytes of a name that may be missing.
pub open spec fn name_view(name: Option<&[u8]>) -> Option<Seq<u8>> {
    match name {
        Some(n) => Some(n@),
        None => None,
    }
}

/// What the octets alone tell of a frame's group.
pub open spec fn octets_tell(
    table: Seq<groups::Group>,
    learned: Seq<LearnedGroup>,
    w: Seq<u8>,
) -> Attribution {
    if !is_filter(w) {
        Attribution::Ambient
    } else {
        match groups::key_for_filter(table, tier0::filter_bits(w), 0) {
            Some((hash, class)) => Attribution::Known(hash, class),
            None => if learned_at(learned, w, 0) < learned.len() {
                Attribution::Known(learned[learned_at(learned, w, 0)].hash, LeaseClass::Bulk)
            } else {
                Attribution::Novel
            },
        }
    }
}

/// The learned groups after a look at these octets: a hit among them counts as
/// heard, unless a registered group took the frame.
pub open spec fn learned_after_look(
    table: Seq<groups::Group>,
    learned: Seq<LearnedGroup>,
    w: Seq<u8>,
    now: u64,
) -> Seq<LearnedGroup> {
    if is_filter(w) && groups::key_for_filter(table, tier0::filter_bits(w), 0) is None
        && learned_at(learned, w, 0) < learned.len() {
        refreshed(learned, learned_at(learned, w, 0), now)
    } else {
        learned
    }
}

/// The group of a frame with these filter octets, where `parsed` is the key that
/// its name gives.
pub open spec fn filter_key(
    table: Seq<groups::Group>,
    learned: Seq<LearnedGroup>,
    w: Seq<u8>,
    parsed: Option<u64>,
) -> Option<(u64, LeaseClass)> {
    match octets_tell(table, learned, w) {
        Attribution::Ambient => None,
        Attribution::Known(hash, class) => Some((hash, class)),
        Attribution::Novel => match parsed {
            Some(h) => Some((h, LeaseClass::Bulk)),
            None => None,
        },
    }
}

/// The learned groups after a frame with these filter octets.
pub open spec fn learned_after(
    table: Seq<groups::Group>,
    learned: Seq<LearnedGroup>,
    wire: [u8; 16],
    parsed: Option<u64>,
    now: u64,
) -> Seq<LearnedGroup> {
    if octets_tell(table, learned, wire@) == Attribution::Novel && parsed is Some {
        with_learned(learned, LearnedGroup { wire, hash: parsed->0, seen: now })
    } else {
        learned_after_look(table, learned, wire@, now)
    }
}

proof fn lemma_learned_at(learned: Seq<LearnedGroup>, w: Seq<u8>, from: int)
    requires
        0 <= from <= learned.len(),
    ensures
        from <= learned_at(learned, w, from) <= learned.len(),
        learned_at(learned, w, from) < learned.len() ==> pair(
            learned[learned_at(learned, w, from)].wire@,
        ) == pair(w),
        learned_at(learned, w, from) == learned.len() ==> forall|i: int|
            from <= i < learned.len() ==> pair((#[trigger] learned[i]).wire@) != pair(w),
    decreases learned.len() - from,
{
    if from < learned.len() {
        lemma_learned_at(learned, w, from + 1);
    }
}

proof fn lemma_oldest(learned: Seq<LearnedGroup>, n: int)
    requires
        1 <= n <= learned.len(),
    ensures
        0 <= oldest(learned, n) < n,
        forall|i: int| 0 <= i < n ==> learned[oldest(learned, n)].seen <= (#[trigger] learned[i]).seen,
    decreases n,
{
    if n > 1 {
        lemma_oldest(learned, n - 1);
    }
}

proof fn lemma_with_learned_distinct(learned: Seq<LearnedGroup>, g: LearnedGroup)
    requires
        distinct(learned),
        learned.len() <= LEARNED_GROUP_CAP,
        learned_at(learned, g.wire@, 0) == learned.len(),
    ensures
        distinct(with_learned(learned, g)),
        with_learned(learned, g).len() <= LEARNED_GROUP_CAP,
{
    lemma_learned_at(learned, g.wire@, 0);
    let kept = if learned.len() >= LEARNED_GROUP_CAP {
        lemma_oldest(learned, learned.len() as int);
        learned.remove(oldest(learned, learned.len() as int))
    } else {
        learned
    };
    assert forall|i: int, j: int| 0 <= i < j < kept.push(g).len() implies pair(
        (#[trigger] kept.push(g)[i]).wire@,
    ) != pair((#[trigger] kept.push(g)[j]).wire@) by {
        let o = oldest(learned, learned.len() as int);
        let a = if learned.len() >= LEARNED_GROUP_CAP && i >= o { i + 1 } else { i };
        assert(kept.push(g)[i] == learned[a]);
        if j < kept.len() {
            let b = if learned.len() >= LEARNED_GROUP_CAP && j >= o { j + 1 } else { j };
            assert(kept.push(g)[j] == learned[b]);
        }
    }
}

/// Are the octets of the first two addresses the same?
fn same_pair(a: &[u8; 16], b: &[u8; 16]) -> (r: bool)
    ensures
        r == (pair(a@) == pair(b@)),
{
    let mut i: usize = 0;
    while i < 12
        invariant
            i <= 12,
            forall|j: int| 0 <= j < i ==> a[j] == b[j],
        decreases 12 - i,
    {
        if a[i] != b[i] {
            assert(pair(a@)[i as int] != pair(b@)[i as int]);
            return false;
        }
        i = i + 1;
    }
    assert(pair(a@) =~= pair(b@));
    true
}

/// The number that a nonce makes, least significant octet first. Zero means that
/// no nonce is known, so a nonce of zeros counts as one.
pub open spec fn nonce_number(n: Seq<u8>) -> nat {
    if octets::little_endian(n) == 0 {
        1
    } else {
        octets::little_endian(n)
    }
}

/// The number that a nonce makes.
pub fn nonce_u64(n: &[u8; 6]) -> (v: u64)
    ensures
        v == nonce_number(n@),
{
    let v: u64 = octets::read_little_endian(n.as_slice());
    if v == 0 {
        1
    } else {
        v
    }
}

/// The sender of a frame as a number, or 0 where it is unknown.
pub open spec fn sender_number(
    group: Option<Seq<u8>>,
    addr: Option<Seq<u8>>,
    addr3: Option<Seq<u8>>,
) -> nat {
    match addressing::frame_sender(group, addr, addr3) {
        Some(n) => nonce_number(n),
        None => 0,
    }
}

/// How a frame's group is told.
#[derive(Debug, Clone, Copy, PartialEq, Eq, Structural)]
pub enum FrameShape {
    /// By its name: it goes to everyone, or no addresses were captured.
    Named,
    /// By its filter octets, as far as they were captured.
    Filtered,
}

/// How a frame with these addresses is told.
pub open spec fn frame_shape(group: Option<Seq<u8>>, addr: Option<Seq<u8>>) -> FrameShape {
    if group is None || group->0 == BROADCAST@ || addr is None {
        FrameShape::Named
    } else {
        FrameShape::Filtered
    }
}

/// The group of a received frame; `None` is a frame of no group of this domain.
pub open spec fn frame_key(
    table: Seq<groups::Group>,
    learned: Seq<LearnedGroup>,
    group: Option<Seq<u8>>,
    addr: Option<Seq<u8>>,
    addr3: Option<Seq<u8>>,
    named: Option<(u64, LeaseClass)>,
) -> Option<(u64, LeaseClass)> {
    match frame_shape(group, addr) {
        FrameShape::Named => named,
        FrameShape::Filtered => filter_key(
            groups::tested(table, addr3 is Some),
            learned,
            name_gate::frame_octets(group->0, addr->0, addr3),
            hash_part(named),
        ),
    }
}

/// The slot key alone.
pub open spec fn hash_part(key: Option<(u64, LeaseClass)>) -> Option<u64> {
    match key {
        Some((h, _)) => Some(h),
        None => None,
    }
}

/// A slot key on a channel: each channel has a map of its own.
pub open spec fn channel_keyed(hash: u64, ch: u8) -> u64 {
    hash ^ (ch as u64).wrapping_mul(CHANNEL_MIX)
}

impl FaceScheduler {
    /// Slot key and class of a name in `/`-joined form; `first` is the key of its
    /// first component, where it has one.
    pub fn name_group(&self, name: Option<&[u8]>, first: Option<u64>) -> (r: Option<
        (u64, LeaseClass),
    >)
        ensures
            r == name_key(table_of(self.groups), name_view(name), first),
    {
        let slash: &[u8] = match name {
            None => {
                return None;
            },
            Some(n) => n,
        };
        if let Some(t) = &self.groups {
            if let Some(hc) = t.hash_for_name(slash) {
                return Some(hc);
            }
        }
        match first {
            Some(h) => Some((h, LeaseClass::Bulk)),
            None => None,
        }
    }

    /// Folds the current channel into a slot key.
    pub fn medium_keyed(&self, hash: u64) -> (k: u64)
        ensures
            k == channel_keyed(hash, self.current_ch),
    {
        hash ^ (self.current_ch as u64).wrapping_mul(CHANNEL_MIX)
    }

    /// Where these octets stand among the learned groups.
    fn find_learned(&self, w: &[u8; 16]) -> (i: usize)
        ensures
            i == learned_at(self.learned@, w@, 0),
            i <= self.learned.len(),
    {
        let mut i: usize = 0;
        while i < self.learned.len()
            invariant
                i <= self.learned.len(),
                learned_at(self.learned@, w@, 0) == learned_at(self.learned@, w@, i as int),
            decreases self.learned.len() - i,
        {
            if same_pair(&self.learned[i].wire, w) {
                return i;
            }
            i = i + 1;
        }
        i
    }

    /// What do the octets alone tell of a frame's group? A learned group that is
    /// met counts as heard now. `third_known` says whether the third address was
    /// captured; where it was not, no mask is held to its part of the filter.
    pub fn attribute_octets(&mut self, w: [u8; 16], third_known: bool, now: u64) -> (a: Attribution)
        requires
            old(self).wf(),
        ensures
            final(self).wf(),
            a == octets_tell(
                groups::tested(table_of(old(self).groups), third_known),
                old(self).learned@,
                w@,
            ),
            final(self).same_but_evidence(*old(self)),
            final(self).evidence == old(self).evidence,
            final(self).learned@ == learned_after_look(
                groups::tested(table_of(old(self).groups), third_known),
                old(self).learned@,
                w@,
                now,
            ),
    {
        if !carries_filter(w) {
            return Attribution::Ambient;
        }
        let f = PrefixFilter::from_wire(w);
        if let Some(t) = &self.groups {
            let hit: Option<(u64, LeaseClass)> = if third_known {
                t.hash_for_filter(&f)
            } else {
                t.hash_for_partial(&f)
            };
            if let Some((hash, class)) = hit {
                return Attribution::Known(hash, class);
            }
        }
        assert(table_of(self.groups).len() == 0 ==> groups::tested(
            table_of(self.groups),
            third_known,
        ) =~= table_of(self.groups));
        let i: usize = self.find_learned(&w);
        if i < self.learned.len() {
            let g: LearnedGroup = self.learned[i];
            let ghost before = self.learned@;
            self.learned.set(i, LearnedGroup { wire: g.wire, hash: g.hash, seen: now });
            proof {
                assert(self.learned@ =~= refreshed(before, i as int, now));
                assert(distinct(self.learned@)) by {
                    assert forall|a: int, b: int| 0 <= a < b < self.learned@.len() implies pair(
                        (#[trigger] self.learned@[a]).wire@,
                    ) != pair((#[trigger] self.learned@[b]).wire@) by {
                        assert(pair(before[a].wire@) != pair(before[b].wire@));
                    }
                }
            }
            return Attribution::Known(g.hash, LeaseClass::Bulk);
        }
        Attribution::Novel
    }

    /// Remembers an unregistered group by its octets. At the cap the group that
    /// was silent for longest gives way.
    pub fn learn(&mut self, w: [u8; 16], hash: u64, now: u64)
        requires
            old(self).wf(),
            learned_at(old(self).learned@, w@, 0) == old(self).learned.len(),
        ensures
            final(self).wf(),
            final(self).same_but_evidence(*old(self)),
            final(self).evidence == old(self).evidence,
            final(self).learned@ == with_learned(
                old(self).learned@,
                LearnedGroup { wire: w, hash, seen: now },
            ),
    {
        let g = LearnedGroup { wire: w, hash, seen: now };
        proof {
            lemma_with_learned_distinct(self.learned@, g);
        }
        if self.learned.len() >= LEARNED_GROUP_CAP {
            let mut o: usize = 0;
            let mut i: usize = 1;
            while i < self.learned.len()
                invariant
                    1 <= i <= self.learned.len(),
                    o < i,
                    o == oldest(self.learned@, i as int),
                decreases self.learned.len() - i,
            {
                if self.learned[i].seen < self.learned[o].seen {
                    o = i;
                }
                i = i + 1;
            }
            self.learned.remove(o);
        }
        self.learned.push(g);
    }

    /// The group of a frame with these filter octets; `parsed` is the key that its
    /// name gives, and is used on the first sight of an unregistered group only.
    /// `third_known` says whether the third address was captured.
    pub fn attribute_filter(
        &mut self,
        w: [u8; 16],
        third_known: bool,
        parsed: Option<u64>,
        now: u64,
    ) -> (r: Option<(u64, LeaseClass)>)
        requires
            old(self).wf(),
        ensures
            final(self).wf(),
            r == filter_key(
                groups::tested(table_of(old(self).groups), third_known),
                old(self).learned@,
                w@,
                parsed,
            ),
            final(self).same_but_evidence(*old(self)),
            final(self).evidence == old(self).evidence,
            final(self).learned@ == learned_after(
                groups::tested(table_of(old(self).groups), third_known),
                old(self).learned@,
                w,
                parsed,
                now,
            ),
    {
        proof {
            lemma_learned_at(self.learned@, w@, 0);
        }
        match self.attribute_octets(w, third_known, now) {
            Attribution::Ambient => None,
            Attribution::Known(hash, class) => Some((hash, class)),
            Attribution::Novel => match parsed {
                Some(hash) => {
                    self.learn(w, hash, now);
                    Some((hash, LeaseClass::Bulk))
                },
                None => None,
            },
        }
    }

    /// Takes a received frame in. A frame of this domain marks the medium busy and
    /// comes back with its group's key and its sender; any other is counted as
    /// ambient and tells nothing. Without claiming nothing is recorded.
    pub fn observe_rx(
        &mut self,
        group: Option<[u8; 6]>,
        addr: Option<[u8; 6]>,
        addr3: Option<[u8; 6]>,
        name: Option<&[u8]>,
        first: Option<u64>,
        now: u64,
    ) -> (r: Option<Heard>)
        requires
            old(self).wf(),
        ensures
            final(self).wf(),
            final(self).same_but_evidence(*old(self)),
            !old(self).settings.claimable ==> r is None && *final(self) == *old(self),
            old(self).settings.claimable ==> {
                let table = table_of(old(self).groups);
                let g = name_gate::addr_view(group);
                let a = name_gate::addr_view(addr);
                let a3 = name_gate::addr_view(addr3);
                let named = name_key(table, name_view(name), first);
                let key = frame_key(table, old(self).learned@, g, a, a3, named);
                &&& r is Some == key is Some
                &&& r matches Some(h) ==> key matches Some((hash, class)) && h.keyed
                    == channel_keyed(hash, old(self).current_ch) && h.class == class && h.nonce
                    == sender_number(g, a, a3)
                &&& final(self).evidence.last_domain_rx == (if key is Some {
                    now
                } else {
                    old(self).evidence.last_domain_rx
                })
                &&& final(self).evidence.ambient_rx == (if key is Some {
                    old(self).evidence.ambient_rx
                } else {
                    old(self).evidence.ambient_rx.wrapping_add(1)
                })
                &&& frame_shape(g, a) == FrameShape::Named ==> final(self).learned
                    == old(self).learned
                &&& frame_shape(g, a) == FrameShape::Filtered ==> exists|w: [u8; 16]|
                    w@ == name_gate::frame_octets(g->0, a->0, a3) && final(self).learned@
                        == #[trigger] learned_after(
                        groups::tested(table, a3 is Some),
                        old(self).learned@,
                        w,
                        hash_part(named),
                        now,
                    )
            },
            final(self).evidence.heard_by_slot == old(self).evidence.heard_by_slot,
            final(self).evidence.nonce_by_slot == old(self).evidence.nonce_by_slot,
    {
        if !self.settings.claimable {
            return None;
        }
        let named: Option<(u64, LeaseClass)> = self.name_group(name, first);
        let key: Option<(u64, LeaseClass)> = match group {
            None => named,
            Some(g) => if same_address(&g, &BROADCAST) {
                named
            } else {
                match addr {
                    None => named,
                    Some(a) => {
                        let w: [u8; 16] = filter_octets(&g, &a, addr3);
                        let parsed: Option<u64> = match named {
                            Some((h, _)) => Some(h),
                            None => None,
                        };
                        self.attribute_filter(w, addr3.is_some(), parsed, now)
                    },
                }
            },
        };
        let (hash, class): (u64, LeaseClass) = match key {
            None => {
                self.evidence.ambient_rx = self.evidence.ambient_rx.wrapping_add(1);
                return None;
            },
            Some(hc) => hc,
        };
        self.evidence.last_domain_rx = now;
        let sender: Option<[u8; 6]> = sender_tag(group, addr, addr3);
        let nonce: u64 = match sender {
            Some(n) => nonce_u64(&n),
            None => 0,
        };
        Some(Heard { keyed: self.medium_keyed(hash), class, nonce })
    }

    /// Records that the owner of slot `k` was heard, from this sender.
    pub fn mark_heard(&mut self, k: usize, nonce: u64, now: u64)
        requires
            old(self).wf(),
        ensures
            final(self).wf(),
            final(self).same_but_evidence(*old(self)),
            final(self).learned == old(self).learned,
            final(self).evidence.last_domain_rx == old(self).evidence.last_domain_rx,
            final(self).evidence.ambient_rx == old(self).evidence.ambient_rx,
            k < old(self).deferred_by_slot.len() ==> {
                &&& final(self).evidence.heard_by_slot@
                    == old(self).evidence.heard_by_slot@.update(k as int, now)
                &&& final(self).evidence.nonce_by_slot@
                    == old(self).evidence.nonce_by_slot@.update(k as int, nonce)
            },
            k >= old(self).deferred_by_slot.len() ==> final(self).evidence == old(self).evidence,
    {
        if k < self.evidence.heard_by_slot.len() {
            self.evidence.heard_by_slot.set(k, now);
            self.evidence.nonce_by_slot.set(k, nonce);
        }
    }

    /// Frames heard that were not of this domain.
    pub fn ambient_frames(&self) -> (n: u64)
        ensures
            n == self.evidence.ambient_rx,
    {
        self.evidence.ambient_rx
    }
}

/// Could the octets be a filter of this kind?
pub fn carries_filter(w: [u8; 16]) -> (r: bool)
    ensures
        r == is_filter(w@),
{
    if w[0] & tier0::RESERVED_MASK0 != tier0::RESERVED_MASK0 {
        return false;
    }
    let pc: u32 = PrefixFilter::from_wire(w).popcount();
    pc != 0 && pc <= tier0::FILL_CAP
}

/// A frame whose addresses are not a filter's, and not everyone's, is ambient
/// whatever it holds: it marks no slot and is evidence of nobody.
pub proof fn law_foreign_frames_are_ambient(
    table: Seq<groups::Group>,
    learned: Seq<LearnedGroup>,
    g: Seq<u8>,
    a: Seq<u8>,
    a3: Option<Seq<u8>>,
    named: Option<(u64, LeaseClass)>,
)
    requires
        g != BROADCAST@,
        !is_filter(name_gate::frame_octets(g, a, a3)),
    ensures
        frame_key(table, learned, Some(g), Some(a), a3, named) is None,
{
}

/// An unregistered group is parsed once: after its first frame the octets alone tell
/// its key, whether the third address of either frame was captured or not. `seen` and
/// `later` are the masks that the two frames are tested against.
pub proof fn law_a_group_is_parsed_once(
    seen: Seq<groups::Group>,
    later: Seq<groups::Group>,
    learned: Seq<LearnedGroup>,
    wire: [u8; 16],
    next: Seq<u8>,
    hash: u64,
    now: u64,
)
    requires
        distinct(learned),
        learned.len() <= LEARNED_GROUP_CAP,
        octets_tell(seen, learned, wire@) == Attribution::Novel,
        pair(next) == pair(wire@),
        is_filter(next),
        groups::key_for_filter(later, tier0::filter_bits(next), 0) is None,
    ensures
        octets_tell(later, learned_after(seen, learned, wire, Some(hash), now), next)
            == Attribution::Known(hash, LeaseClass::Bulk),
{
    let g = LearnedGroup { wire, hash, seen: now };
    let after = with_learned(learned, g);
    lemma_learned_at(learned, wire@, 0);
    lemma_with_learned_distinct(learned, g);
    lemma_learned_at(after, next, 0);
    if learned.len() >= LEARNED_GROUP_CAP {
        lemma_oldest(learned, learned.len() as int);
    }
    let last = after.len() - 1;
    assert(after[last] == g);
    let at = learned_at(after, next, 0);
    if at < last {
        assert(pair(after[at].wire@) != pair(after[last].wire@));
    }
}

/// Whoever gives way at the cap was silent for at least as long as every other
/// group that is remembered.
pub proof fn law_eviction_spares_whoever_spoke_last(learned: Seq<LearnedGroup>, i: int)
    requires
        learned.len() >= 1,
        0 <= i < learned.len(),
    ensures
        0 <= oldest(learned, learned.len() as int) < learned.len(),
        learned[oldest(learned, learned.len() as int)].seen <= learned[i].seen,
{
    lemma_oldest(learned, learned.len() as int);
}

/// One filter, one map: where a name lies under a registered prefix, a sender of the
/// name and a receiver of its frame, on one channel and with one table, use the same
/// slot key and class, whatever else the receiver learned or parsed, unless the
/// filter also falls under the mask of a group that does not cover the name.
pub proof fn law_sender_and_receiver_use_one_slot(
    table: Seq<groups::Group>,
    learned: Seq<LearnedGroup>,
    key: Seq<u8>,
    name: Seq<u8>,
    i: int,
    first: Option<u64>,
    named: Option<(u64, LeaseClass)>,
    w: Seq<u8>,
    nonce: Seq<u8>,
)
    requires
        groups::longest_first(table),
        groups::masked_by(table, key),
        forall|j: int|
            0 <= j < table.len() && tier0::accepts(
                tier0::name_bits(key, name),
                (#[trigger] table[j]).mask,
            ) ==> groups::covers(table[j].prefix, name),
        0 <= i < table.len(),
        tier0::is_under(name, table[i].prefix),
        addressing::is_object_wire(w, key, name),
        nonce.len() == 6,
    ensures
        name_key(table, Some(name), first) is Some,
        name_key(table, Some(name), first) == groups::key_for_name(table, name, 0),
        filter_key(table, learned, w, hash_part(named)) == name_key(table, Some(name), first),
        frame_key(
            table,
            learned,
            Some(w.take(6)),
            Some(w.subrange(6, 12)),
            Some(addressing::third_address(w, nonce)),
            named,
        ) == name_key(table, Some(name), first),
{
    groups::law_sender_and_receiver_agree(table, key, name, i);
    tier0::law_one_name_stays_under_the_cap(key, name);
    tier0::lemma_named_filter_is_not_empty(key, name);
    addressing::law_named_frames_are_not_broadcast(key, name, w);
    assert(name_gate::frame_octets(
        w.take(6),
        w.subrange(6, 12),
        Some(addressing::third_address(w, nonce)),
    ) =~= w);
}

/// A registered group is heard whether or not the third address was captured. Where
/// a name lies under a registered prefix and a bit of its filter rides in the first
/// two addresses, a frame captured without the third is attributed to a registered
/// group, with a name or without: to the group that its sender keys it by, unless the
/// octets at hand also fall under the mask of a group that does not cover the name.
pub proof fn law_partial_capture_finds_the_group(
    table: Seq<groups::Group>,
    learned: Seq<LearnedGroup>,
    key: Seq<u8>,
    name: Seq<u8>,
    i: int,
    named: Option<(u64, LeaseClass)>,
    w: Seq<u8>,
)
    requires
        groups::longest_first(table),
        groups::masked_by(table, key),
        0 <= i < table.len(),
        tier0::is_under(name, table[i].prefix),
        addressing::is_object_wire(w, key, name),
        name_gate::testable(tier0::name_bits(key, name), false).len() > 0,
    ensures
        ({
            let part = name_gate::testable(tier0::name_bits(key, name), false);
            let got = frame_key(
                table,
                learned,
                Some(w.take(6)),
                Some(w.subrange(6, 12)),
                None,
                named,
            );
            &&& got is Some
            &&& got == groups::key_for_filter(groups::narrowed(table), part, 0)
            &&& (forall|j: int|
                0 <= j < table.len() && tier0::accepts(
                    part,
                    (#[trigger] groups::narrowed(table)[j]).mask,
                ) ==> groups::covers(table[j].prefix, name)) ==> got == groups::key_for_name(
                table,
                name,
                0,
            )
        }),
{
    groups::law_missing_address_only_loosens(table, key, name, i);
    addressing::law_named_frames_are_not_broadcast(key, name, w);
    name_gate::lemma_octets_without_third(w);
    tier0::law_one_name_stays_under_the_cap(key, name);
    let all = tier0::name_bits(key, name);
    let part = name_gate::testable(all, false);
    assert(part.subset_of(all));
    vstd::set_lib::lemma_len_subset(part, all);
    let at_hand = name_gate::frame_octets(w.take(6), w.subrange(6, 12), None);
    assert(at_hand[0] == w[0]);
}

/// What a channel adds to a key never wraps.
proof fn lemma_channel_term(ch: u8)
    ensures
        (ch as u64).wrapping_mul(CHANNEL_MIX) == ch * 0x9e37_79b9,
{
    let product = (ch as u64) * CHANNEL_MIX;
    assert(product == ch * 0x9e37_79b9);
    assert(0 <= product < 0x1_0000_0000_0000_0000);
    assert(product % 0x1_0000_0000_0000_0000 == product);
}

/// Each channel has a slot map of its own: on two channels one group has two keys,
/// and on one channel two groups keep theirs apart.
pub proof fn law_channels_stagger_the_map(hash: u64, other: u64, a: u8, b: u8)
    requires
        a != b,
    ensures
        channel_keyed(hash, a) != channel_keyed(hash, b),
        hash != other ==> channel_keyed(hash, a) != channel_keyed(other, a),
{
    let x = (a as u64).wrapping_mul(CHANNEL_MIX);
    let y = (b as u64).wrapping_mul(CHANNEL_MIX);
    lemma_channel_term(a);
    lemma_channel_term(b);
    assert(x != y);
    assert(x != y ==> hash ^ x != hash ^ y) by (bit_vector);
    assert(hash != other ==> hash ^ x != other ^ x) by (bit_vector);
}

// ---------------------------------------------------------------------------
// Laws of the draw and of the election
// ---------------------------------------------------------------------------

/// The mixing of the epoch can be undone: its multiplier is odd.
proof fn lemma_epoch_unmixed(e: u64)
    ensures
        (e.wrapping_mul(EPOCH_MIX) * 0xf1de_83e1_9937_733dint) % 0x1_0000_0000_0000_0000int == e,
{
    let word = 0x1_0000_0000_0000_0000int;
    let back = 0xf1de_83e1_9937_733dint;
    let mix = EPOCH_MIX as int;
    let turns = 0x957b_bf35_006e_d677int;
    let e1 = e as int;
    assert(e.wrapping_mul(EPOCH_MIX) as int == (e1 * mix) % word);
    assert(mix * back == turns * word + 1);
    vstd::arithmetic::div_mod::lemma_mul_mod_noop_left(e1 * mix, back, word);
    assert((e1 * mix) * back == e1 * (mix * back)) by (nonlinear_arith);
    assert(e1 * (turns * word + 1) == word * (e1 * turns) + e1) by (nonlinear_arith);
    vstd::arithmetic::div_mod::lemma_mod_multiples_vanish(e1 * turns, e1, word);
    vstd::arithmetic::div_mod::lemma_small_mod(e as nat, word as nat);
}

/// What is reduced into the window of the draw.
proof fn lemma_unreduced(prefix_hash: u64, epoch: u64)
    ensures
        raw_draw(prefix_hash, epoch, 0x1_0000_0000_0000_0000) == ({
            let mixed = prefix_hash ^ epoch.wrapping_mul(EPOCH_MIX);
            mixed ^ (mixed >> 32)
        }),
{
    let mixed = prefix_hash ^ epoch.wrapping_mul(EPOCH_MIX);
    let v = mixed ^ (mixed >> 32);
    vstd::arithmetic::div_mod::lemma_small_mod(v as nat, 0x1_0000_0000_0000_0000);
}

/// The draw depends on the whole epoch: two different epochs, of whatever size, never
/// give one name the same value to be reduced into the window, so the winner rotates.
pub proof fn law_every_epoch_draws_afresh(prefix_hash: u64, a: u64, b: u64)
    requires
        a != b,
    ensures
        raw_draw(prefix_hash, a, 0x1_0000_0000_0000_0000) != raw_draw(
            prefix_hash,
            b,
            0x1_0000_0000_0000_0000,
        ),
{
    lemma_epoch_unmixed(a);
    lemma_epoch_unmixed(b);
    lemma_unreduced(prefix_hash, a);
    lemma_unreduced(prefix_hash, b);
    let x = a.wrapping_mul(EPOCH_MIX);
    let y = b.wrapping_mul(EPOCH_MIX);
    assert(x != y);
    lemma_folding_is_injective(prefix_hash ^ x, prefix_hash ^ y);
    assert(x != y ==> prefix_hash ^ x != prefix_hash ^ y) by (bit_vector);
}

proof fn lemma_folding_is_injective(x: u64, y: u64)
    ensures
        x != y ==> x ^ (x >> 32) != y ^ (y >> 32),
{
    assert(x != y ==> x ^ (x >> 32) != y ^ (y >> 32)) by (bit_vector);
}

/// In one epoch two different names never have the same value to be reduced.
pub proof fn law_every_name_draws_for_itself(a: u64, b: u64, epoch: u64)
    requires
        a != b,
    ensures
        raw_draw(a, epoch, 0x1_0000_0000_0000_0000) != raw_draw(
            b,
            epoch,
            0x1_0000_0000_0000_0000,
        ),
{
    lemma_unreduced(a, epoch);
    lemma_unreduced(b, epoch);
    let m = epoch.wrapping_mul(EPOCH_MIX);
    lemma_folding_is_injective(a ^ m, b ^ m);
    assert(a != b ==> a ^ m != b ^ m) by (bit_vector);
}

/// Without backlog the wait is what the name and the epoch give, reduced into the
/// window and at least one.
pub proof fn law_the_wait_is_the_reduced_draw(
    prefix_hash: u64,
    slot_us: u64,
    epoch: u64,
    airtime_us: u64,
)
    ensures
        ({
            let full = raw_draw(prefix_hash, epoch, 0x1_0000_0000_0000_0000);
            let wait = claim_jitter(prefix_hash, slot_us, epoch, airtime_us, 0);
            &&& 0 <= full < 0x1_0000_0000_0000_0000
            &&& wait == full % draw_window(slot_us, airtime_us) || wait == 1 && full % draw_window(
                slot_us,
                airtime_us,
            ) == 0
        }),
{
    lemma_unreduced(prefix_hash, epoch);
    let window = draw_window(slot_us, airtime_us);
    let mixed = prefix_hash ^ epoch.wrapping_mul(EPOCH_MIX);
    let v = (mixed ^ (mixed >> 32)) as int;
    assert(0 <= v % window < window) by (nonlinear_arith)
        requires
            window > 0,
    ;
}

/// The window is the smaller of half the slot and eight frame times, where a frame
/// takes at least one microsecond; a slot without a half has a window of one.
pub proof fn law_the_window_of_the_draw(slot_us: u64, airtime_us: u64)
    ensures
        ({
            let window = draw_window(slot_us, airtime_us);
            let frame = if airtime_us == 0 {
                1int
            } else {
                airtime_us as int
            };
            let half = slot_us as int / 2;
            &&& slot_us < 2 ==> window == 1
            &&& slot_us >= 2 ==> window <= half && window <= 8 * frame && (window == half || window
                == 8 * frame)
        }),
{
}

/// Each frame of backlog halves the wait, down to one, as long as what is left of the
/// window spans two frame times, and at most four times; more backlog changes nothing.
pub proof fn law_each_waiting_frame_halves_the_wait(
    prefix_hash: u64,
    slot_us: u64,
    epoch: u64,
    airtime_us: u64,
    backlog: u32,
)
    requires
        backlog < u32::MAX,
    ensures
        ({
            let window = draw_window(slot_us, airtime_us);
            let frame = if airtime_us == 0 {
                1int
            } else {
                airtime_us as int
            };
            let here = claim_jitter(prefix_hash, slot_us, epoch, airtime_us, backlog);
            let next = claim_jitter(prefix_hash, slot_us, epoch, airtime_us, (backlog + 1) as u32);
            let room = backlog == 0 && window / 2 >= 2 * frame || backlog == 1 && window / 4 >= 2
                * frame || backlog == 2 && window / 8 >= 2 * frame || backlog == 3 && window / 16
                >= 2 * frame;
            &&& room ==> next == (if here / 2 < 1 {
                1int
            } else {
                here / 2
            })
            &&& !room ==> next == here
        }),
{
    let window = draw_window(slot_us, airtime_us);
    let mixed = prefix_hash ^ epoch.wrapping_mul(EPOCH_MIX);
    let v = (mixed ^ (mixed >> 32)) as int;
    assert(0 <= v % window < window) by (nonlinear_arith)
        requires
            window > 0,
    ;
}

/// Evidence of presence holds for two superframes, and for the presence timeout at
/// least.
pub proof fn law_the_presence_window(slot_us: u64, slots: u64)
    requires
        slot_us * slots * 2 <= u64::MAX,
    ensures
        presence_window(slot_us, slots) >= 5_000_000,
        presence_window(slot_us, slots) >= slot_us * slots * 2,
        presence_window(slot_us, slots) == 5_000_000 || presence_window(slot_us, slots) == slot_us
            * slots * 2,
{
    let p = slot_us * slots;
    assert(p >= 0) by (nonlinear_arith)
        requires
            p == slot_us * slots,
            slot_us >= 0,
            slots >= 0,
    ;
}

/// A sender that is heard on one slot alone is evidence of that slot's owner as long as
/// the window lasts, and not a moment longer.
pub proof fn law_a_sole_sender_vouches_for_its_slot(
    heard: Seq<u64>,
    nonces: Seq<u64>,
    k: int,
    now: u64,
    window: int,
)
    requires
        heard.len() == nonces.len(),
        0 <= k < heard.len(),
        forall|j: int| 0 <= j < nonces.len() && j != k ==> #[trigger] nonces[j] != nonces[k],
    ensures
        owner_evident(heard, nonces, k, now, window) <==> heard[k] != 0 && now - heard[k] <= window,
{
}

/// A sender that was heard on another slot too, but there longer ago than the window,
/// still vouches for the slot that it was heard on lately.
pub proof fn law_an_old_hearing_elsewhere_does_no_harm(
    heard: Seq<u64>,
    nonces: Seq<u64>,
    k: int,
    now: u64,
    window: int,
)
    requires
        heard.len() == nonces.len(),
        0 <= k < heard.len(),
        heard[k] != 0,
        now - heard[k] <= window,
        forall|j: int|
            0 <= j < nonces.len() && j != k && #[trigger] nonces[j] == nonces[k] ==> heard[j] == 0
                || now - heard[j] > window,
    ensures
        owner_evident(heard, nonces, k, now, window),
{
}

/// A slot is held exactly while a lease runs, and a held slot carries on exactly where
/// nobody of the domain spoke in it, it is no lane and the frame has room.
pub proof fn law_a_hold_carries_on_while_it_may(s: FaceScheduler, r: SlotReading)
    requires
        r.start_us <= r.now_us,
    ensures
        s.hold(r) == HoldStatus::NotHeld <==> s.claim.hold_slot_start == u64::MAX || r.now_us
            >= s.claim.lease_until,
        s.hold(r) == HoldStatus::Continue <==> s.hold(r) != HoldStatus::NotHeld
            && s.evidence.last_domain_rx < r.start_us && !r.reserved && r.fits,
{
}

/// A bulk frame contends for a slot of another group exactly where claiming is on, no
/// hold goes on, the slot is no lane and idle, its owner is in range or need not be
/// known, the frame's own turn is more than a slot away, and draw and frame still fit;
/// and then it waits its group's draw.
pub proof fn law_an_idle_slot_is_contended_for(
    s: FaceScheduler,
    hash: u64,
    class: LeaseClass,
    r: SlotReading,
    airtime: u64,
)
    requires
        r.start_us <= r.now_us,
        r.home < s.deferred_by_slot@.len(),
    ensures
        ({
            let wait = claim_jitter(
                hash,
                r.slot_us,
                r.epoch,
                airtime,
                s.deferred_by_slot@[r.home as int],
            );
            let step = s.claim_step(hash, class, r, airtime);
            let held = s.claim.hold_slot_start != u64::MAX && r.now_us < s.claim.lease_until;
            &&& step is Contend <==> s.settings.claimable && class == LeaseClass::Bulk && !r.reserved
                && s.evidence.last_domain_rx < r.start_us && (s.settings.claim_unknown
                || owner_evident(
                s.evidence.heard_by_slot@,
                s.evidence.nonce_by_slot@,
                r.current as int,
                r.now_us,
                presence_window(r.slot_us, r.slots),
            )) && r.wait_us > r.slot_us && r.remaining_us > wait + airtime && (!held || !r.fits
                && r.now_us + r.remaining_us >= s.claim.lease_until)
            &&& step is Contend ==> step->Contend_0 == wait
            &&& step == ClaimStep::Granted <==> s.settings.claimable && class == LeaseClass::Bulk
                && !r.reserved && held && s.evidence.last_domain_rx < r.start_us && r.fits
        }),
{
    law_draw_is_bounded(
        hash,
        r.slot_us,
        r.epoch,
        airtime,
        backlog(s.deferred_by_slot@, r.home as int),
    );
    law_a_hold_carries_on_while_it_may(s, r);
}

/// What an attempt counts as: every attempt that is allowed is one, an election is
/// counted where the frame contends, a win and a hold where it carries on, and nothing
/// is won before the wait is over.
pub proof fn law_an_attempt_is_counted_once(
    s: FaceScheduler,
    hash: u64,
    class: LeaseClass,
    r: SlotReading,
    airtime: u64,
)
    requires
        s.settings.claimable,
        class == LeaseClass::Bulk,
        !r.reserved,
    ensures
        ({
            let step = s.claim_step(hash, class, r, airtime);
            let after = s.claim_after(hash, class, r, airtime);
            &&& after.attempts == s.claim.attempts.wrapping_add(1)
            &&& step is Contend ==> after.elections == s.claim.elections.wrapping_add(1)
            &&& !(step is Contend) ==> after.elections == s.claim.elections
            &&& after.elections_won == s.claim.elections_won
            &&& step == ClaimStep::Granted ==> after.wins == s.claim.wins.wrapping_add(1)
                && after.holds == s.claim.holds.wrapping_add(1) && after.hold_slot_start
                == s.claim.hold_slot_start && after.lease_until == s.claim.lease_until
            &&& step != ClaimStep::Granted ==> after.wins == s.claim.wins && after.holds
                == s.claim.holds
        }),
{
}

/// A hold is given up only where the owner spoke or the lease ends with the slot; a hold
/// that is not over stays as it is.
pub proof fn law_a_hold_is_given_up_only_where_it_must(
    s: FaceScheduler,
    hash: u64,
    class: LeaseClass,
    r: SlotReading,
    airtime: u64,
)
    ensures
        ({
            let after = s.claim_after(hash, class, r, airtime);
            let kept = after.hold_slot_start == s.claim.hold_slot_start && after.lease_until
                == s.claim.lease_until;
            let dropped = after.hold_slot_start == u64::MAX && after.lease_until == 0;
            &&& kept || dropped
            &&& !kept ==> s.hold(r) == HoldStatus::Ended && (s.evidence.last_domain_rx >= r.start_us
                || r.now_us + r.remaining_us >= s.claim.lease_until)
        }),
{
}

/// A full count stays full, and an index without a cell counts nothing and changes
/// nothing.
pub proof fn law_backlog_without_a_cell(deferred: Seq<u32>, k: int)
    ensures
        !(0 <= k < deferred.len()) ==> backlog(deferred, k) == 0 && spent(deferred, k) == deferred
            && postponed(deferred, k) == deferred,
        0 <= k < deferred.len() ==> backlog(deferred, k) == deferred[k] && spent(deferred, k).len()
            == deferred.len() && postponed(deferred, k).len() == deferred.len(),
        0 <= k < deferred.len() && deferred[k] == u32::MAX ==> postponed(deferred, k) == deferred,
{
}

// ---------------------------------------------------------------------------
// Laws of what a received frame tells
// ---------------------------------------------------------------------------

/// Octets are taken for a filter exactly where the two lowest bits of the first are set
/// and between one and sixty-four of the usable bits.
pub proof fn law_what_counts_as_a_filter(w: Seq<u8>)
    ensures
        is_filter(w) <==> w[0] % 4 == 3 && 1 <= tier0::filter_bits(w).len() <= 64,
{
    let b = w[0];
    assert((b & 3u8 == 3u8) == (b % 4 == 3)) by (bit_vector);
}

/// A frame to everyone, or without one of its first two addresses, is told by its name
/// alone.
pub proof fn law_unfiltered_frames_are_told_by_name(
    table: Seq<groups::Group>,
    learned: Seq<LearnedGroup>,
    group: Option<Seq<u8>>,
    addr: Option<Seq<u8>>,
    addr3: Option<Seq<u8>>,
    named: Option<(u64, LeaseClass)>,
)
    requires
        group is None || group == Some(BROADCAST@) || addr is None,
    ensures
        frame_key(table, learned, group, addr, addr3, named) == named,
        frame_shape(group, addr) == FrameShape::Named,
{
}

/// A frame that a filter addresses is told by the first registered mask that fits; where
/// none fits, by the group that was learned under its first two addresses, as bulk;
/// where none was, by the key of its name, as bulk; and by nothing else.
pub proof fn law_a_filtered_frame_is_told_in_turn(
    table: Seq<groups::Group>,
    learned: Seq<LearnedGroup>,
    g: Seq<u8>,
    a: Seq<u8>,
    a3: Option<Seq<u8>>,
    named: Option<(u64, LeaseClass)>,
    i: int,
)
    requires
        g != BROADCAST@,
        g.len() == 6,
        a.len() == 6,
        is_filter(name_gate::frame_octets(g, a, a3)),
        distinct(learned),
    ensures
        ({
            let bits = tier0::filter_bits(name_gate::frame_octets(g, a, a3));
            let masks = if a3 is Some {
                table
            } else {
                groups::narrowed(table)
            };
            let registered = groups::key_for_filter(masks, bits, 0);
            let got = frame_key(table, learned, Some(g), Some(a), a3, named);
            &&& registered is Some ==> got == registered
            &&& registered is None && 0 <= i < learned.len() && learned[i].wire@.take(12) == g + a
                ==> got == Some((learned[i].hash, LeaseClass::Bulk))
            &&& registered is None && (forall|j: int|
                0 <= j < learned.len() ==> (#[trigger] learned[j]).wire@.take(12) != g + a) ==> (
            match named {
                Some((hash, _)) => got == Some((hash, LeaseClass::Bulk)),
                None => got is None,
            })
        }),
{
    let w = name_gate::frame_octets(g, a, a3);
    assert(w.take(12) =~= g + a);
    lemma_learned_at(learned, w, 0);
    let at = learned_at(learned, w, 0);
    if 0 <= i < learned.len() && learned[i].wire@.take(12) == g + a {
        assert(pair(learned[i].wire@) == pair(w));
        if at < i {
            assert(pair(learned[at].wire@) != pair(learned[i].wire@));
        } else if at > i {
            assert(pair(learned[i].wire@) != pair(w));
        }
    }
    if at < learned.len() {
        assert(learned[at].wire@.take(12) == g + a);
    }
}

/// What is learned: a group that no mask fits is remembered from its first named frame
/// on, under its octets, its key and the time; one that is remembered already only
/// counts as heard; and nothing else is remembered or forgotten below the cap.
pub proof fn law_groups_are_remembered_from_their_first_name_on(
    table: Seq<groups::Group>,
    learned: Seq<LearnedGroup>,
    wire: [u8; 16],
    parsed: Option<u64>,
    now: u64,
    i: int,
)
    requires
        learned.len() < LEARNED_GROUP_CAP,
        distinct(learned),
        0 <= i < learned.len(),
    ensures
        ({
            let after = learned_after(table, learned, wire, parsed, now);
            let fresh = octets_tell(table, learned, wire@) == Attribution::Novel && parsed is Some;
            &&& after.len() == learned.len() + (if fresh {
                1int
            } else {
                0int
            })
            &&& after[i].wire == learned[i].wire && after[i].hash == learned[i].hash
            &&& after[i].seen == now || after[i].seen == learned[i].seen
            &&& after[i].seen != learned[i].seen ==> learned[i].wire@.take(12) == wire@.take(12)
            &&& is_filter(wire@) && groups::key_for_filter(table, tier0::filter_bits(wire@), 0)
                is None && learned[i].wire@.take(12) == wire@.take(12) ==> after[i].seen == now
            &&& fresh ==> after.last() == (LearnedGroup { wire, hash: parsed->0, seen: now })
        }),
{
    lemma_learned_at(learned, wire@, 0);
    let at = learned_at(learned, wire@, 0);
    if learned[i].wire@.take(12) == wire@.take(12) {
        assert(pair(learned[i].wire@) == pair(wire@));
        if at < i {
            assert(pair(learned[at].wire@) != pair(learned[i].wire@));
        } else if at > i {
            assert(pair(learned[i].wire@) != pair(wire@));
        }
    }
}

/// At the cap one group gives way, and it is one that was silent for longest; the
/// others stay, in order, and the new one comes last.
pub proof fn law_one_group_gives_way_at_the_cap(learned: Seq<LearnedGroup>, g: LearnedGroup)
    requires
        learned.len() == LEARNED_GROUP_CAP,
    ensures
        ({
            let o = oldest(learned, learned.len() as int);
            let after = with_learned(learned, g);
            &&& after.len() == learned.len()
            &&& after.last() == g
            &&& forall|j: int| 0 <= j < o ==> #[trigger] after[j] == learned[j]
            &&& forall|j: int| o <= j < learned.len() - 1 ==> #[trigger] after[j] == learned[j + 1]
            &&& forall|j: int| 0 <= j < learned.len() ==> learned[o].seen <= (
            #[trigger] learned[j]).seen
        }),
{
    lemma_oldest(learned, learned.len() as int);
}

/// A name is keyed by its longest registered prefix; by its first component, as bulk,
/// where no prefix is registered; and not at all where it has no component.
pub proof fn law_a_name_is_keyed_by_registration_first(
    table: Seq<groups::Group>,
    name: Seq<u8>,
    first: Option<u64>,
)
    ensures
        ({
            let registered = groups::key_for_name(table, name, 0);
            let got = name_key(table, Some(name), first);
            &&& registered is Some ==> got == registered
            &&& registered is None && first is Some ==> got == Some((first->0, LeaseClass::Bulk))
            &&& registered is None && first is None ==> got is None
            &&& name_key(table, None, first) is None
        }),
{
}

/// The key on a channel is the group's key with the channel's multiple folded in; on
/// channel 0 it is the group's key.
pub proof fn law_the_channel_is_folded_into_the_key(hash: u64, ch: u8)
    ensures
        channel_keyed(hash, ch) ^ hash == ch * 0x9e37_79b9,
        channel_keyed(hash, 0) == hash,
{
    lemma_channel_term(ch);
    lemma_channel_term(0);
    let m = (ch as u64).wrapping_mul(CHANNEL_MIX);
    let z = (0u8 as u64).wrapping_mul(CHANNEL_MIX);
    assert((hash ^ m) ^ hash == m) by (bit_vector);
    assert(z == 0);
    assert(hash ^ 0u64 == hash) by (bit_vector);
}

/// A sender's number is that of its six nonce octets, least significant first, save
/// that zeros count as one; a frame that names no sender has the number 0.
pub proof fn law_a_sender_is_numbered_by_its_nonce(group: Seq<u8>, n: Seq<u8>, a3: Seq<u8>)
    requires
        n.len() == 6,
        a3.len() == 6,
        group != BROADCAST@,
    ensures
        ({
            let v = n[0] + 256 * n[1] + 65536 * n[2] + 0x100_0000 * n[3] + 0x1_0000_0000 * n[4]
                + 0x100_0000_0000 * n[5];
            nonce_number(n) == (if v == 0 {
                1int
            } else {
                v
            })
        }),
        sender_number(None, Some(n), Some(a3)) == nonce_number(n),
        sender_number(Some(BROADCAST@), Some(n), Some(a3)) == nonce_number(n),
        sender_number(Some(group), Some(n), None) == nonce_number(n),
        ({
            let v = 0x1_0000_0000 * a3[4] + 0x100_0000_0000 * a3[5];
            sender_number(Some(group), Some(n), Some(a3)) == (if v == 0 {
                1int
            } else {
                v
            })
        }),
        sender_number(None, None, None) == 0,
{
    lemma_six_octets(n);
    let tail = Seq::new(4, |i: int| 0u8) + a3.subrange(4, 6);
    lemma_six_octets(tail);
}

proof fn lemma_six_octets(n: Seq<u8>)
    requires
        n.len() == 6,
    ensures
        octets::little_endian(n) == n[0] + 256 * n[1] + 65536 * n[2] + 0x100_0000 * n[3]
            + 0x1_0000_0000 * n[4] + 0x100_0000_0000 * n[5],
{
    reveal_with_fuel(octets::little_endian, 8);
}

/// When a slot is claimed, in any reading: a bulk frame with claiming on, outside of the
/// lanes, carries on where it holds the slot and may; else, unless its lease goes on
/// behind a full slot, it contends where the slot is idle, its owner is in range or need
/// not be known, its own turn is more than a slot away and draw and frame fit; and any
/// other attempt is refused.
pub proof fn law_when_a_slot_is_claimed(
    s: FaceScheduler,
    hash: u64,
    class: LeaseClass,
    r: SlotReading,
    airtime: u64,
)
    ensures
        ({
            let wait = claim_jitter(
                hash,
                r.slot_us,
                r.epoch,
                airtime,
                backlog(s.deferred_by_slot@, r.home as int),
            );
            let step = s.claim_step(hash, class, r, airtime);
            let allowed = s.settings.claimable && class == LeaseClass::Bulk && !r.reserved;
            let silent = s.evidence.last_domain_rx < r.start_us;
            let known = s.settings.claim_unknown || owner_evident(
                s.evidence.heard_by_slot@,
                s.evidence.nonce_by_slot@,
                r.current as int,
                r.now_us,
                presence_window(r.slot_us, r.slots),
            );
            let carries_on = s.hold(r) == HoldStatus::Continue;
            let goes_on_later = s.hold(r) == HoldStatus::Ended && silent && r.now_us
                + r.remaining_us < s.claim.lease_until;
            &&& step == ClaimStep::Granted <==> allowed && carries_on
            &&& step is Contend <==> allowed && !carries_on && !goes_on_later && silent && known
                && r.wait_us > r.slot_us && r.remaining_us > wait + airtime
            &&& step is Contend ==> step->Contend_0 == wait
        }),
{
    law_draw_is_bounded(
        hash,
        r.slot_us,
        r.epoch,
        airtime,
        backlog(s.deferred_by_slot@, r.home as int),
    );
}

/// When a slot counts as held, in any reading.
pub proof fn law_when_a_slot_is_held(s: FaceScheduler, r: SlotReading)
    ensures
        s.hold(r) == HoldStatus::NotHeld <==> s.claim.hold_slot_start == u64::MAX || r.now_us
            >= s.claim.lease_until || s.claim.lease_until <= r.start_us && s.claim.hold_slot_start
            < r.start_us,
        s.hold(r) == HoldStatus::Continue <==> s.hold(r) != HoldStatus::NotHeld
            && s.evidence.last_domain_rx < r.start_us && !r.reserved && r.fits,
{
}

/// A hold ends for good where the owner spoke, or where the slot is full and the lease
/// ends with it.
pub proof fn law_a_hold_that_must_end_ends(
    s: FaceScheduler,
    hash: u64,
    r: SlotReading,
    airtime: u64,
)
    requires
        s.settings.claimable,
        !r.reserved,
        s.hold(r) == HoldStatus::Ended,
        s.evidence.last_domain_rx >= r.start_us || r.now_us + r.remaining_us
            >= s.claim.lease_until,
    ensures
        s.claim_after(hash, LeaseClass::Bulk, r, airtime).hold_slot_start == u64::MAX,
        s.claim_after(hash, LeaseClass::Bulk, r, airtime).lease_until == 0,
{
}

/// Where two superframes are longer than a word can say, evidence holds as long as a word
/// can say.
pub proof fn law_the_presence_window_saturates(slot_us: u64, slots: u64)
    requires
        slot_us * slots * 2 > u64::MAX,
    ensures
        presence_window(slot_us, slots) == u64::MAX,
{
}

/// A fresh group is added to what is remembered; below the cap it comes last and nothing
/// gives way.
pub proof fn law_a_fresh_group_is_added(
    table: Seq<groups::Group>,
    learned: Seq<LearnedGroup>,
    wire: [u8; 16],
    hash: u64,
    now: u64,
)
    requires
        octets_tell(table, learned, wire@) == Attribution::Novel,
    ensures
        learned_after(table, learned, wire, Some(hash), now) == with_learned(
            learned,
            LearnedGroup { wire, hash, seen: now },
        ),
        learned_after(table, learned, wire, None, now) == learned,
        learned.len() < 64 ==> with_learned(learned, LearnedGroup { wire, hash, seen: now })
            == learned.push(LearnedGroup { wire, hash, seen: now }),
{
}

/// A known or an ambient frame adds no group and takes none away, at the cap or below it:
/// at most it counts as heard.
pub proof fn law_known_groups_are_only_heard(
    table: Seq<groups::Group>,
    learned: Seq<LearnedGroup>,
    wire: [u8; 16],
    parsed: Option<u64>,
    now: u64,
    i: int,
)
    requires
        octets_tell(table, learned, wire@) != Attribution::Novel,
        distinct(learned),
        0 <= i < learned.len(),
    ensures
        ({
            let after = learned_after(table, learned, wire, parsed, now);
            let met = is_filter(wire@) && groups::key_for_filter(
                table,
                tier0::filter_bits(wire@),
                0,
            ) is None && learned[i].wire@.take(12) == wire@.take(12);
            &&& after.len() == learned.len()
            &&& met ==> after[i] == (LearnedGroup { seen: now, ..learned[i] })
            &&& !met ==> after[i] == learned[i]
        }),
{
    lemma_learned_at(learned, wire@, 0);
    let at = learned_at(learned, wire@, 0);
    if learned[i].wire@.take(12) == wire@.take(12) {
        assert(pair(learned[i].wire@) == pair(wire@));
        if at < i {
            assert(pair(learned[at].wire@) != pair(learned[i].wire@));
        } else if at > i {
            assert(pair(learned[i].wire@) != pair(wire@));
        }
    } else if at == i {
        assert(pair(learned[at].wire@) == pair(wire@));
    }
}

/// What the octets alone tell: nothing where they are no filter, the first registered
/// group whose mask fits, else the group learned under them, else that it is new.
pub proof fn law_what_octets_tell(
    table: Seq<groups::Group>,
    learned: Seq<LearnedGroup>,
    w: Seq<u8>,
    i: int,
)
    requires
        distinct(learned),
    ensures
        ({
            let got = octets_tell(table, learned, w);
            let registered = groups::key_for_filter(table, tier0::filter_bits(w), 0);
            &&& got == Attribution::Ambient <==> !is_filter(w)
            &&& is_filter(w) ==> (registered matches Some((h, c)) ==> got == Attribution::Known(
                h,
                c,
            ))
            &&& is_filter(w) && registered is None && 0 <= i < learned.len()
                && learned[i].wire@.take(12) == w.take(12) ==> got == Attribution::Known(
                learned[i].hash,
                LeaseClass::Bulk,
            )
            &&& is_filter(w) && registered is None && (forall|j: int|
                0 <= j < learned.len() ==> (#[trigger] learned[j]).wire@.take(12) != w.take(12))
                ==> got == Attribution::Novel
        }),
{
    lemma_learned_at(learned, w, 0);
    let at = learned_at(learned, w, 0);
    if 0 <= i < learned.len() && learned[i].wire@.take(12) == w.take(12) {
        assert(pair(learned[i].wire@) == pair(w));
        if at < i {
            assert(pair(learned[at].wire@) != pair(learned[i].wire@));
        } else if at > i {
            assert(pair(learned[i].wire@) != pair(w));
        }
    }
    if at < learned.len() {
        assert(learned[at].wire@.take(12) == w.take(12));
    }
}

/// A frame's name, the table and the key alone are taken as they are.
pub proof fn law_inputs_are_taken_as_they_are(t: GroupTable, name: &[u8], hash: u64, c: LeaseClass)
    ensures
        table_of(None) == Seq::<groups::Group>::empty(),
        table_of(Some(t)) == t@,
        name_view(Some(name)) == Some(name@),
        name_view(None) is None,
        hash_part(Some((hash, c))) == Some(hash),
        hash_part(None) is None,
{
}

/// What frames tell changes what was heard and learned, and nothing else.
pub proof fn law_frames_change_nothing_else(a: FaceScheduler, b: FaceScheduler)
    requires
        a.same_but_evidence(b),
    ensures
        a == (FaceScheduler { evidence: a.evidence, learned: a.learned, ..b }),
{
}

/// A claim changes the claim and the backlog, and nothing else.
pub proof fn law_claims_change_nothing_else(a: FaceScheduler, b: FaceScheduler)
    requires
        a.same_but_claim(b),
    ensures
        a == (FaceScheduler { claim: a.claim, deferred_by_slot: a.deferred_by_slot, ..b }),
{
}

/// A scheduler has one cell of each kind per slot and at least one, and remembers at most
/// sixty-four groups, none of them twice.
pub proof fn law_the_form_of_a_scheduler(s: FaceScheduler, i: int, j: int)
    requires
        s.wf(),
    ensures
        s.deferred_by_slot@.len() > 0,
        s.evidence.heard_by_slot@.len() == s.deferred_by_slot@.len(),
        s.evidence.nonce_by_slot@.len() == s.deferred_by_slot@.len(),
        s.learned@.len() <= 64,
        0 <= i < j < s.learned@.len() ==> s.learned@[i].wire@.take(12) != s.learned@[j].wire@.take(
            12,
        ),
{
    if 0 <= i < j < s.learned@.len() {
        assert(pair(s.learned@[i].wire@) != pair(s.learned@[j].wire@));
    }
}

/// A scheduler that has just been made has heard nothing, holds nothing and owes nothing.
pub proof fn law_a_new_scheduler_is_idle(s: FaceScheduler, slots: int, k: int, r: SlotReading)
    requires
        s.is_idle(slots),
        0 <= k < slots,
    ensures
        s.learned@.len() == 0,
        s.current_ch == 255,
        s.cv_hw is None,
        s.deferred_by_slot@.len() == slots,
        backlog(s.deferred_by_slot@, k) == 0,
        s.evidence.heard_by_slot@[k] == 0,
        s.evidence.nonce_by_slot@[k] == 0,
        s.evidence.last_domain_rx == 0,
        s.evidence.ambient_rx == 0,
        s.hold(r) == HoldStatus::NotHeld,
        s.claim.attempts == 0 && s.claim.wins == 0 && s.claim.elections == 0
            && s.claim.elections_won == 0 && s.claim.holds == 0,
        s.claim.hold_slot_start == u64::MAX && s.claim.lease_until == 0,
        !owner_evident(
            s.evidence.heard_by_slot@,
            s.evidence.nonce_by_slot@,
            k,
            r.now_us,
            presence_window(r.slot_us, r.slots),
        ),
{
}

// ---------------------------------------------------------------------------
// Channel and clock
// ---------------------------------------------------------------------------

impl FaceScheduler {
    /// Moves to a channel. Returns whether the radio has to be retuned, which it
    /// does not where it sits there already.
    pub fn retune(&mut self, ch: u8) -> (needed: bool)
        ensures
            needed == (old(self).current_ch != ch),
            *final(self) == (FaceScheduler { current_ch: ch, ..*old(self) }),
    {
        if self.current_ch == ch {
            return false;
        }
        self.current_ch = ch;
        true
    }

    /// The beacon that carries this reference time.
    pub fn build_beacon(ref_us: u64) -> (out: Vec<u8>)
        ensures
            out@ == clock::beacon_octets(ref_us),
    {
        let mut out: Vec<u8> = Vec::new();
        out.push(TIME_BEACON_MAGIC[0]);
        out.push(TIME_BEACON_MAGIC[1]);
        out.push(TIME_BEACON_MAGIC[2]);
        assert(out@ =~= TIME_BEACON_MAGIC@);
        let mut time: Vec<u8> = octets::write_little_endian(ref_us);
        out.append(&mut time);
        out
    }

    /// The reference time of a received payload, where it is a beacon.
    pub fn parse_beacon(payload: &[u8]) -> (r: Option<u64>)
        ensures
            match clock::beacon_time(payload@) {
                Some(t) => r is Some && r->0 == t,
                None => r is None,
            },
    {
        if payload.len() < 11 {
            return None;
        }
        if payload[0] != TIME_BEACON_MAGIC[0] || payload[1] != TIME_BEACON_MAGIC[1] || payload[2]
            != TIME_BEACON_MAGIC[2] {
            assert(payload@.take(3)[0] != TIME_BEACON_MAGIC@[0] || payload@.take(3)[1]
                != TIME_BEACON_MAGIC@[1] || payload@.take(3)[2] != TIME_BEACON_MAGIC@[2]);
            return None;
        }
        assert(payload@.take(3) =~= TIME_BEACON_MAGIC@);
        let time: &[u8] = vstd::slice::slice_subrange(payload, 3, 11);
        Some(octets::read_little_endian(time))
    }

    /// Is this node the one that broadcasts the time beacon?
    pub fn is_master(&self) -> (r: bool)
        ensures
            r == self.settings.master,
    {
        self.settings.master
    }

    /// Takes the offset onto the network timeline that a beacon exchange gave.
    pub fn ingest_common_view(&mut self, offset_us: i64)
        ensures
            *final(self) == (FaceScheduler { cv_hw: Some(offset_us), ..*old(self) }),
    {
        self.cv_hw = Some(offset_us);
    }

    /// Has a neighbour's hardware-stamped beacon disciplined the clock?
    pub fn is_hw_synced(&self) -> (r: bool)
        ensures
            r == self.cv_hw is Some,
    {
        self.cv_hw.is_some()
    }

    /// The hardware offset onto the mesh timeline, where there is one.
    pub fn cv_offset_us(&self) -> (o: Option<i64>)
        ensures
            o == self.cv_hw,
    {
        self.cv_hw
    }

    /// The slot epoch time, out of what the clocks show: the wall clock, the
    /// hardware clock and the clock that software beacons discipline. The common
    /// view is the hardware clock on the mesh timeline once an offset is known,
    /// and the software clock until then.
    pub fn common_view_now_us(&self, wall_us: u64, hardware_us: u64, software_us: u64) -> (t: u64)
        ensures
            match self.settings.clock_source {
                ClockSource::Wall => t == wall_us,
                ClockSource::Hardware => t == hardware_us,
                ClockSource::CommonView => match self.cv_hw {
                    Some(offset) => clock::leads(hardware_us, offset, t),
                    None => t == software_us,
                },
            },
    {
        match self.settings.clock_source {
            ClockSource::Wall => wall_us,
            ClockSource::Hardware => hardware_us,
            ClockSource::CommonView => match self.cv_hw {
                Some(offset) => clock::projected_us(hardware_us, offset),
                None => software_us,
            },
        }
    }

    /// The time state at `now_us`.
    pub fn time_status(&self, now_us: u64) -> (s: TimeStatus)
        ensures
            s == (TimeStatus {
                now_us,
                hw_synced: self.cv_hw is Some,
                offset_us: self.cv_hw,
            }),
    {
        TimeStatus { now_us, hw_synced: self.cv_hw.is_some(), offset_us: self.cv_hw }
    }
}

} // verus!
