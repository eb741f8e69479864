//! The scheduler's configuration, out of the values of its environment variables.

use vstd::prelude::*;

use crate::clock::ClockSource;
use crate::sched::SchedSettings;
use crate::text;
use crate::text::{chars_of, parse_octet_list, parse_unsigned, same_text, split_once, trim};

verus! {

/// A slot schedule.
#[derive(Debug, Clone, Copy, PartialEq, Eq, Structural)]
pub struct SlotPlan {
    /// Slots in a superframe.
    pub slots: u64,
    /// The width of a slot in microseconds; `None` where it is derived from the
    /// frame time and the clock's guard.
    pub slot_us: Option<u64>,
    /// Every so many slots one is a reserved lane; 0 for none.
    pub reserved_stride: u64,
}

/// A hop schedule.
pub struct HopPlan {
    /// The channels to hop over.
    pub channels: Vec<u8>,
    /// How long to stay on each, in microseconds.
    pub dwell_us: u64,
}

/// A hop schedule as a value.
pub open spec fn hop_view(hop: Option<HopPlan>) -> Option<(Seq<int>, int)> {
    match hop {
        Some(h) => Some((h.channels@.map_values(|c: u8| c as int), h.dwell_us as int)),
        None => None,
    }
}

/// How many cells a schedule needs: one per slot, and at least one.
pub open spec fn cells(slot: Option<SlotPlan>) -> int {
    match slot {
        Some(p) => if p.slots as usize == 0 {
            1
        } else {
            (p.slots as usize) as int
        },
        None => 1,
    }
}

/// The values of the scheduler's environment variables; `None` is unset.
pub struct SchedVars<'a> {
    /// `NDN_SCHED_SLOT`: `slots` or `slots:slot_us`.
    pub slot: Option<&'a str>,
    /// `NDN_SCHED_RESERVE`: the stride of reserved lanes.
    pub reserve: Option<&'a str>,
    /// `NDN_SCHED_HOP`: `ch,ch,…:dwell_us`.
    pub hop: Option<&'a str>,
    /// `NDN_SCHED_CLOCK`: `wall`, `hw` or `cv`.
    pub clock: Option<&'a str>,
    /// `NDN_SCHED_MASTER`: `1` for the clock master.
    pub master: Option<&'a str>,
    /// `NDN_SCHED_CLAIM`: `1` for claimable slots.
    pub claim: Option<&'a str>,
    /// `NDN_SCHED_CLAIM_UNKNOWN`: set to claim slots of unheard owners.
    pub claim_unknown: Option<&'a str>,
    /// `NDN_SCHED_LEASE`: the most base slots of a lease.
    pub lease: Option<&'a str>,
    /// `NDN_SCHED_NODE_ID`: this node's number.
    pub node_id: Option<&'a str>,
}

/// The number in a value with the white space around it taken away, or a default.
pub open spec fn number_or(v: Option<&str>, default: u64) -> u64 {
    match v {
        Some(s) => match text::unsigned(text::trimmed(s@), u64::MAX as int) {
            Some(n) => n as u64,
            None => default,
        },
        None => default,
    }
}

/// The clock that a value names; the wall clock where it names none.
pub open spec fn clock_named(v: Option<&str>) -> ClockSource {
    match v {
        Some(s) => if s@ == "hw"@ || s@ == "hardware"@ {
            ClockSource::Hardware
        } else if s@ == "cv"@ || s@ == "common-view"@ {
            ClockSource::CommonView
        } else {
            ClockSource::Wall
        },
        None => ClockSource::Wall,
    }
}

/// The slot schedule that a text states.
pub open spec fn slot_stated(s: Seq<char>, stride: u64) -> Option<SlotPlan> {
    match text::parted(s, ':') {
        Some((n, us)) => match (
            text::unsigned(text::trimmed(n), u64::MAX as int),
            text::unsigned(text::trimmed(us), u64::MAX as int),
        ) {
            (Some(n), Some(us)) => Some(
                SlotPlan {
                    slots: n as u64,
                    slot_us: Some(us as u64),
                    reserved_stride: stride,
                },
            ),
            _ => None,
        },
        None => match text::unsigned(text::trimmed(s), u64::MAX as int) {
            Some(n) => Some(
                SlotPlan { slots: n as u64, slot_us: None, reserved_stride: stride },
            ),
            None => None,
        },
    }
}

/// The hop schedule that a text states: the channels that are numbers, at least
/// one of them, and a dwell.
pub open spec fn hop_stated(s: Seq<char>) -> Option<(Seq<int>, int)> {
    match text::parted(s, ':') {
        Some((chans, dwell)) => {
            let channels = text::numbers_in(text::pieces(chans, ','), 255);
            match text::unsigned(text::trimmed(dwell), u64::MAX as int) {
                Some(d) if channels.len() > 0 => Some((channels, d)),
                _ => None,
            }
        },
        None => None,
    }
}

/// Reads a slot schedule: `slots` with a derived width, or `slots:slot_us`.
pub fn parse_slot(s: &str, stride: u64) -> (r: Option<SlotPlan>)
    ensures
        r == slot_stated(s@, stride),
{
    let chars: Vec<char> = chars_of(s);
    match split_once(chars.as_slice(), ':') {
        Some((n, us)) => match (
            parse_unsigned(trim(n), u64::MAX),
            parse_unsigned(trim(us), u64::MAX),
        ) {
            (Some(slots), Some(us)) => Some(
                SlotPlan { slots, slot_us: Some(us), reserved_stride: stride },
            ),
            _ => None,
        },
        None => match parse_unsigned(trim(chars.as_slice()), u64::MAX) {
            Some(slots) => Some(SlotPlan { slots, slot_us: None, reserved_stride: stride }),
            None => None,
        },
    }
}

/// Reads a hop schedule: `ch,ch,…:dwell_us`.
pub fn parse_hop(s: &str) -> (r: Option<HopPlan>)
    ensures
        hop_view(r) == hop_stated(s@),
{
    let chars: Vec<char> = chars_of(s);
    match split_once(chars.as_slice(), ':') {
        Some((chans, dwell)) => {
            let channels: Vec<u8> = parse_octet_list(chans, ',');
            assert(channels@.map_values(|c: u8| c as int) =~= channels@.map_values(
                |v: u8| v as int,
            ));
            if channels.len() == 0 {
                return None;
            }
            match parse_unsigned(trim(dwell), u64::MAX) {
                Some(dwell_us) => Some(HopPlan { channels, dwell_us }),
                None => None,
            }
        },
        None => None,
    }
}

/// Reads a number, or takes a default.
fn parse_or(v: Option<&str>, default: u64) -> (n: u64)
    ensures
        n == number_or(v, default),
{
    match v {
        Some(s) => {
            let chars: Vec<char> = chars_of(s);
            match parse_unsigned(trim(chars.as_slice()), u64::MAX) {
                Some(n) => n,
                None => default,
            }
        },
        None => default,
    }
}

/// Is the value set, and to this text?
fn is_text(v: Option<&str>, lit: &str) -> (r: bool)
    ensures
        r == (v is Some && v->0@ == lit@),
{
    match v {
        Some(s) => {
            let chars: Vec<char> = chars_of(s);
            same_text(chars.as_slice(), lit)
        },
        None => false,
    }
}

impl<'a> SchedVars<'a> {
    /// The slot schedule that the values state.
    pub open spec fn slot_plan(&self) -> Option<SlotPlan> {
        match self.slot {
            Some(s) => slot_stated(s@, number_or(self.reserve, 0)),
            None => None,
        }
    }

    /// The hop schedule that the values state.
    pub open spec fn hop_plan(&self) -> Option<(Seq<int>, int)> {
        match self.hop {
            Some(s) => hop_stated(s@),
            None => None,
        }
    }

    /// The settings that the values state. A lease holds at least one slot; a node
    /// without a number never becomes the reference.
    pub open spec fn settings(&self) -> SchedSettings {
        let lease = number_or(self.lease, 1);
        SchedSettings {
            clock_source: clock_named(self.clock),
            master: self.master is Some && self.master->0@ == "1"@,
            claimable: self.claim is Some && self.claim->0@ == "1"@,
            claim_unknown: self.claim_unknown is Some,
            lease_max: if lease == 0 {
                1
            } else {
                lease
            },
            node_id: match self.node_id {
                Some(s) => match text::unsigned(s@, u64::MAX as int) {
                    Some(n) => n as u64,
                    None => u64::MAX,
                },
                None => u64::MAX,
            },
        }
    }

    /// Reads the slot schedule.
    pub fn read_slot(&self) -> (r: Option<SlotPlan>)
        ensures
            r == self.slot_plan(),
    {
        match self.slot {
            Some(s) => parse_slot(s, parse_or(self.reserve, 0)),
            None => None,
        }
    }

    /// Reads the hop schedule.
    pub fn read_hop(&self) -> (r: Option<HopPlan>)
        ensures
            hop_view(r) == self.hop_plan(),
    {
        match self.hop {
            Some(s) => parse_hop(s),
            None => None,
        }
    }

    /// Reads the settings.
    pub fn read_settings(&self) -> (s: SchedSettings)
        ensures
            s == self.settings(),
    {
        let clock_source = if is_text(self.clock, "hw") || is_text(self.clock, "hardware") {
            ClockSource::Hardware
        } else if is_text(self.clock, "cv") || is_text(self.clock, "common-view") {
            ClockSource::CommonView
        } else {
            ClockSource::Wall
        };
        let lease: u64 = parse_or(self.lease, 1);
        let node_id: u64 = match self.node_id {
            Some(s) => {
                let chars: Vec<char> = chars_of(s);
                match parse_unsigned(chars.as_slice(), u64::MAX) {
                    Some(n) => n,
                    None => u64::MAX,
                }
            },
            None => u64::MAX,
        };
        SchedSettings {
            clock_source,
            master: is_text(self.master, "1"),
            claimable: is_text(self.claim, "1"),
            claim_unknown: self.claim_unknown.is_some(),
            lease_max: if lease == 0 { 1 } else { lease },
            node_id,
        }
    }
}

// ---------------------------------------------------------------------------
// Laws
// ---------------------------------------------------------------------------

/// A slot schedule is stated as a number of slots, with or without a width behind a
/// colon, each with white space around it or not; anything else states none.
pub proof fn law_how_slots_are_stated(s: Seq<char>, a: Seq<char>, b: Seq<char>, stride: u64)
    requires
        forall|i: int| 0 <= i < s.len() ==> #[trigger] s[i] != ':',
        forall|i: int| 0 <= i < a.len() ==> #[trigger] a[i] != ':',
    ensures
        ({
            let word = 0xffff_ffff_ffff_ffffint;
            let slots = text::unsigned(text::trimmed(s), word);
            &&& slots is None ==> slot_stated(s, stride) is None
            &&& slots matches Some(n) ==> (slot_stated(s, stride) matches Some(p) && p.slots == n
                && p.slot_us is None && p.reserved_stride == stride)
        }),
        ({
            let word = 0xffff_ffff_ffff_ffffint;
            let slots = text::unsigned(text::trimmed(a), word);
            let width = text::unsigned(text::trimmed(b), word);
            let got = slot_stated(a + seq![':'] + b, stride);
            &&& slots is None || width is None ==> got is None
            &&& slots matches Some(n) ==> (width matches Some(us) ==> (got matches Some(p)
                && p.slots == n && (p.slot_us matches Some(w) && w == us) && p.reserved_stride
                == stride))
        }),
{
    text::law_a_text_parts_at_its_first_separator(s, ':', b);
    text::law_a_text_parts_at_its_first_separator(a, ':', b);
}

/// A hop schedule is stated as a list of channels, a colon and a dwell: the channels that
/// are numbers up to 255, at least one, in order; without a colon, a channel or a dwell
/// there is none.
pub proof fn law_how_hops_are_stated(a: Seq<char>, b: Seq<char>)
    requires
        forall|i: int| 0 <= i < a.len() ==> #[trigger] a[i] != ':',
    ensures
        hop_stated(a) is None,
        ({
            let channels = text::numbers_in(text::pieces(a, ','), 255);
            let dwell = text::unsigned(text::trimmed(b), 0xffff_ffff_ffff_ffff);
            let got = hop_stated(a + seq![':'] + b);
            &&& channels.len() == 0 || dwell is None ==> got is None
            &&& channels.len() > 0 && dwell is Some ==> got == Some((channels, dwell->0))
        }),
{
    text::law_a_text_parts_at_its_first_separator(a, ':', b);
}

/// A number is taken where a value states one, and the default everywhere else.
pub proof fn law_defaults_stand_in(v: &str, default: u64)
    ensures
        number_or(None, default) == default,
        match text::unsigned(text::trimmed(v@), 0xffff_ffff_ffff_ffff) {
            Some(n) => number_or(Some(v), default) == n,
            None => number_or(Some(v), default) == default,
        },
{
}

/// Which clock a value names: the two short and the two long names count, and nothing
/// else moves the schedule off the wall clock.
pub proof fn law_which_clock_is_named(v: &str)
    ensures
        clock_named(None) == ClockSource::Wall,
        clock_named(Some(v)) == ClockSource::Hardware <==> v@ == "hw"@ || v@ == "hardware"@,
        v@ == "cv"@ || v@ == "common-view"@ ==> clock_named(Some(v)) == ClockSource::CommonView,
        clock_named(Some(v)) == ClockSource::CommonView ==> v@ == "cv"@ || v@ == "common-view"@,
{
    reveal_strlit("hw");
    reveal_strlit("hardware");
    reveal_strlit("cv");
    reveal_strlit("common-view");
    assert("cv"@[0] != "hw"@[0]);
    assert("cv"@.len() != "hardware"@.len());
    assert("common-view"@.len() != "hw"@.len());
    assert("common-view"@.len() != "hardware"@.len());
}

/// The settings follow the values one by one: the flags are on where they read `1`, a
/// lease holds at least one slot, and a node without a number is last in every election.
pub proof fn law_settings_follow_the_values(v: SchedVars)
    ensures
        ({
            let s = v.settings();
            &&& s.clock_source == clock_named(v.clock)
            &&& s.master <==> v.master is Some && v.master->0@ == "1"@
            &&& s.claimable <==> v.claim is Some && v.claim->0@ == "1"@
            &&& s.claim_unknown <==> v.claim_unknown is Some
            &&& s.lease_max >= 1
            &&& number_or(v.lease, 1) > 0 ==> s.lease_max == number_or(v.lease, 1)
            &&& v.node_id is None ==> s.node_id == u64::MAX
            &&& v.node_id matches Some(n) ==> match text::unsigned(
                n@,
                0xffff_ffff_ffff_ffff,
            ) {
                Some(k) => s.node_id == k,
                None => s.node_id == u64::MAX,
            }
        }),
        v.slot is None ==> v.slot_plan() is None,
        v.slot matches Some(t) ==> v.slot_plan() == slot_stated(t@, number_or(v.reserve, 0)),
        v.hop is None ==> v.hop_plan() is None,
        v.hop matches Some(t) ==> v.hop_plan() == hop_stated(t@),
{
}

/// There is one cell per slot, and one where there is no slot.
pub proof fn law_one_cell_per_slot(p: SlotPlan)
    requires
        p.slots <= usize::MAX,
    ensures
        cells(None) == 1,
        p.slots == 0 ==> cells(Some(p)) == 1,
        p.slots > 0 ==> cells(Some(p)) == p.slots,
{
}

/// A hop schedule is its channels, in order, and its dwell.
pub proof fn law_a_hop_schedule_as_a_value(h: HopPlan, i: int)
    requires
        0 <= i < h.channels@.len(),
    ensures
        hop_view(None) is None,
        hop_view(Some(h)) matches Some((channels, dwell)) && channels.len() == h.channels@.len()
            && channels[i] == h.channels@[i] && dwell == h.dwell_us,
{
}

} // verus!
