//! The medium as a face: what its readers do with a captured frame, what they
//! remember of links and losses, and how a frame that fans out over several radios
//! is answered.

use std::collections::HashMap;

use vstd::prelude::*;

use crate::addressing;
use crate::addressing::sender_tag;
use crate::clock;
use crate::name_gate;
use crate::name_gate::{same_address, NameGate, Passage};
use crate::rate::RatePolicy;
use crate::sched;
use crate::sched::FaceScheduler;

verus! {

broadcast use vstd::std_specs::hash::group_hash_axioms;

// ---------------------------------------------------------------------------
// Losses
// ---------------------------------------------------------------------------

/// Counts the frames delivered and the sequence numbers that are missing between
/// them.
#[derive(Debug, Clone, Copy, PartialEq, Eq, Structural)]
pub struct LossMeter {
    /// The sequence number last seen, or the largest value.
    pub last_seq: u64,
    /// Frames delivered.
    pub delivered: u64,
    /// Sequence numbers missing.
    pub gaps: u64,
}

impl LossMeter {
    /// The sequence numbers that a frame shows to be missing.
    pub open spec fn missing_before(&self, seq: u64) -> int {
        if self.last_seq != u64::MAX && seq > self.last_seq + 1 {
            seq - self.last_seq - 1
        } else {
            0
        }
    }

    /// A meter that has seen nothing.
    pub fn new() -> (m: Self)
        ensures
            m == (LossMeter { last_seq: u64::MAX, delivered: 0, gaps: 0 }),
    {
        LossMeter { last_seq: u64::MAX, delivered: 0, gaps: 0 }
    }

    /// Takes a delivered frame in, with its sequence number where it has one.
    pub fn observe(&mut self, seq: Option<u64>)
        ensures
            final(self).delivered == old(self).delivered.wrapping_add(1),
            match seq {
                Some(s) => final(self).last_seq == s && final(self).gaps
                    == old(self).gaps.wrapping_add(old(self).missing_before(s) as u64),
                None => final(self).last_seq == old(self).last_seq && final(self).gaps
                    == old(self).gaps,
            },
    {
        self.delivered = self.delivered.wrapping_add(1);
        if let Some(s) = seq {
            let last: u64 = self.last_seq;
            self.last_seq = s;
            if last != u64::MAX && s > last + 1 {
                self.gaps = self.gaps.wrapping_add(s - last - 1);
            }
        }
    }

    /// The missing and the delivered since the counts were last taken.
    pub fn counts(&self) -> (c: (u64, u64))
        ensures
            c == (self.gaps, self.delivered),
    {
        (self.gaps, self.delivered)
    }

    /// Takes the counts and starts them over. The sequence number is kept, so that
    /// a gap across the border is counted once.
    pub fn take_counts(&mut self) -> (c: (u64, u64))
        ensures
            c == (old(self).gaps, old(self).delivered),
            *final(self) == (LossMeter { gaps: 0, delivered: 0, ..*old(self) }),
    {
        let c: (u64, u64) = (self.gaps, self.delivered);
        self.gaps = 0;
        self.delivered = 0;
        c
    }
}

impl Default for LossMeter {
    fn default() -> (m: Self)
        ensures
            m == (LossMeter { last_seq: u64::MAX, delivered: 0, gaps: 0 }),
    {
        LossMeter::new()
    }
}

/// Frames that arrive in order and without a hole are never counted as lost.
pub proof fn law_no_loss_without_a_hole(m: LossMeter)
    requires
        m.last_seq < u64::MAX,
    ensures
        m.missing_before((m.last_seq + 1) as u64) == 0,
        m.missing_before(m.last_seq) == 0,
{
}

/// Every number that was skipped counts, and none that was not.
pub proof fn law_a_hole_counts_its_width(m: LossMeter, width: u64)
    requires
        m.last_seq + 1 + width < u64::MAX,
    ensures
        m.missing_before((m.last_seq + 1 + width) as u64) == width,
{
}

// ---------------------------------------------------------------------------
// Links
// ---------------------------------------------------------------------------

/// What was last heard over a link.
#[derive(Debug, Clone, Copy, PartialEq, Eq, Structural)]
pub struct LinkSignals {
    /// The signal strength in dBm.
    pub rssi_dbm: Option<i8>,
    /// The rate index.
    pub mcs_index: Option<u8>,
    /// When it was heard, in milliseconds.
    pub updated_ms: u64,
}

/// What was last heard of one neighbour.
#[derive(Debug, Clone, Copy)]
pub struct SourceLink {
    /// The neighbour's nonce.
    pub tag: [u8; 6],
    /// What was heard.
    pub signals: LinkSignals,
}

/// The links of each face, and of each neighbour by its nonce.
pub struct LinkSignalStore {
    /// By face.
    pub links: HashMap<u64, LinkSignals>,
    /// By neighbour, each once.
    pub sources: Vec<SourceLink>,
}

/// Where a neighbour stands in the list, counted from `from`; the length where it
/// does not.
pub open spec fn source_at(list: Seq<SourceLink>, tag: Seq<u8>, from: int) -> int
    decreases list.len() - from,
{
    if from < 0 || from >= list.len() {
        list.len() as int
    } else if list[from].tag@ == tag {
        from
    } else {
        source_at(list, tag, from + 1)
    }
}

/// What was last heard of a neighbour.
pub open spec fn heard_of(list: Seq<SourceLink>, tag: Seq<u8>) -> Option<LinkSignals> {
    if source_at(list, tag, 0) < list.len() {
        Some(list[source_at(list, tag, 0)].signals)
    } else {
        None
    }
}

/// The list after a neighbour was heard.
pub open spec fn with_heard(list: Seq<SourceLink>, s: SourceLink) -> Seq<SourceLink> {
    let at = source_at(list, s.tag@, 0);
    if at < list.len() {
        list.update(at, s)
    } else {
        list.push(s)
    }
}

/// No neighbour stands twice.
pub open spec fn each_once(list: Seq<SourceLink>) -> bool {
    forall|i: int, j: int|
        0 <= i < j < list.len() ==> (#[trigger] list[i]).tag@ != (#[trigger] list[j]).tag@
}

/// It was heard no longer ago than `within`.
pub open spec fn is_recent(s: LinkSignals, within_ms: u64, now_ms: u64) -> bool {
    now_ms - s.updated_ms <= within_ms
}

/// How many of the first `n` neighbours were heard recently.
pub open spec fn recent_among(
    list: Seq<SourceLink>,
    n: int,
    within_ms: u64,
    now_ms: u64,
) -> nat
    decreases n,
{
    if n <= 0 {
        0
    } else {
        recent_among(list, n - 1, within_ms, now_ms) + (if is_recent(
            list[n - 1].signals,
            within_ms,
            now_ms,
        ) {
            1nat
        } else {
            0nat
        })
    }
}

proof fn lemma_source_at(list: Seq<SourceLink>, tag: Seq<u8>, from: int)
    requires
        0 <= from <= list.len(),
    ensures
        from <= source_at(list, tag, from) <= list.len(),
        source_at(list, tag, from) < list.len() ==> list[source_at(list, tag, from)].tag@ == tag,
        forall|i: int| from <= i < source_at(list, tag, from) ==> (#[trigger] list[i]).tag@ != tag,
    decreases list.len() - from,
{
    if from < list.len() && list[from].tag@ != tag {
        lemma_source_at(list, tag, from + 1);
    }
}

/// The first place is the only one.
proof fn lemma_source_found(list: Seq<SourceLink>, tag: Seq<u8>, i: int)
    requires
        each_once(list),
        0 <= i < list.len(),
        list[i].tag@ == tag,
    ensures
        source_at(list, tag, 0) == i,
{
    lemma_source_at(list, tag, 0);
    let at = source_at(list, tag, 0);
    if at < i {
        assert(list[at].tag@ != list[i].tag@);
    }
}

proof fn lemma_with_heard_once(list: Seq<SourceLink>, s: SourceLink)
    requires
        each_once(list),
    ensures
        each_once(with_heard(list, s)),
{
    lemma_source_at(list, s.tag@, 0);
    let at = source_at(list, s.tag@, 0);
    let after = with_heard(list, s);
    assert forall|i: int, j: int| 0 <= i < j < after.len() implies (#[trigger] after[i]).tag@ != (
    #[trigger] after[j]).tag@ by {
        if at < list.len() {
            assert(list[i].tag@ != list[j].tag@);
        } else if j < list.len() {
            assert(list[i].tag@ != list[j].tag@);
        }
    }
}

impl LinkSignalStore {
    /// No neighbour stands twice.
    pub open spec fn wf(&self) -> bool {
        each_once(self.sources@)
    }

    /// A store that has heard nothing.
    pub fn new() -> (s: Self)
        ensures
            s.wf(),
            s.links@ == Map::<u64, LinkSignals>::empty(),
            s.sources@.len() == 0,
    {
        LinkSignalStore { links: HashMap::new(), sources: Vec::new() }
    }

    /// Notes what was heard on a face.
    pub fn set_link(&mut self, face: u64, signals: LinkSignals)
        ensures
            final(self).links@ == old(self).links@.insert(face, signals),
            final(self).sources == old(self).sources,
    {
        self.links.insert(face, signals);
    }

    /// What was last heard on a face.
    pub fn link(&self, face: u64) -> (r: Option<LinkSignals>)
        ensures
            r == (if self.links@.dom().contains(face) {
                Some(self.links@[face])
            } else {
                None
            }),
    {
        match self.links.get(&face) {
            Some(s) => Some(*s),
            None => None,
        }
    }

    /// Where does a neighbour stand in the list?
    fn find_source(&self, tag: &[u8; 6]) -> (i: usize)
        ensures
            i == source_at(self.sources@, tag@, 0),
            i <= self.sources.len(),
    {
        let mut i: usize = 0;
        while i < self.sources.len()
            invariant
                i <= self.sources.len(),
                source_at(self.sources@, tag@, 0) == source_at(self.sources@, tag@, i as int),
            decreases self.sources.len() - i,
        {
            if same_address(&self.sources[i].tag, tag) {
                return i;
            }
            i = i + 1;
        }
        i
    }

    /// Notes what was heard of a neighbour.
    pub fn set_source_link(&mut self, tag: [u8; 6], signals: LinkSignals)
        requires
            old(self).wf(),
        ensures
            final(self).wf(),
            final(self).links == old(self).links,
            final(self).sources@ == with_heard(old(self).sources@, SourceLink { tag, signals }),
    {
        let i: usize = self.find_source(&tag);
        proof {
            lemma_with_heard_once(self.sources@, SourceLink { tag, signals });
        }
        if i < self.sources.len() {
            self.sources.set(i, SourceLink { tag, signals });
        } else {
            self.sources.push(SourceLink { tag, signals });
        }
    }

    /// What was last heard of a neighbour.
    pub fn source_link(&self, tag: [u8; 6]) -> (r: Option<LinkSignals>)
        ensures
            r == heard_of(self.sources@, tag@),
    {
        let i: usize = self.find_source(&tag);
        if i < self.sources.len() {
            Some(self.sources[i].signals)
        } else {
            None
        }
    }

    /// How many neighbours were heard recently.
    pub fn neighbour_count(&self, fresh_within_ms: u64, now_ms: u64) -> (n: usize)
        ensures
            n == recent_among(
                self.sources@,
                self.sources@.len() as int,
                fresh_within_ms,
                now_ms,
            ),
    {
        let mut n: usize = 0;
        let mut i: usize = 0;
        while i < self.sources.len()
            invariant
                i <= self.sources.len(),
                n <= i,
                n == recent_among(self.sources@, i as int, fresh_within_ms, now_ms),
            decreases self.sources.len() - i,
        {
            if now_ms.saturating_sub(self.sources[i].signals.updated_ms) <= fresh_within_ms {
                n = n + 1;
            }
            i = i + 1;
        }
        n
    }

    /// Every neighbour heard so far.
    pub fn neighbours(&self) -> (list: &Vec<SourceLink>)
        ensures
            *list == self.sources,
    {
        &self.sources
    }
}

/// A neighbour's link is what was last heard of it, and hearing one neighbour
/// leaves what is known of the others alone.
pub proof fn law_links_are_kept_per_neighbour(
    list: Seq<SourceLink>,
    s: SourceLink,
    other: Seq<u8>,
)
    requires
        each_once(list),
        other != s.tag@,
    ensures
        heard_of(with_heard(list, s), s.tag@) == Some(s.signals),
        heard_of(with_heard(list, s), other) == heard_of(list, other),
{
    let after = with_heard(list, s);
    lemma_with_heard_once(list, s);
    lemma_source_at(list, s.tag@, 0);
    lemma_source_at(list, other, 0);
    lemma_source_at(after, other, 0);
    let at = source_at(list, s.tag@, 0);
    lemma_source_found(after, s.tag@, at);
    let o = source_at(list, other, 0);
    if o < list.len() {
        assert(after[o] == list[o]);
        lemma_source_found(after, other, o);
    } else {
        let p = source_at(after, other, 0);
        if p < after.len() {
            if p < list.len() {
                assert(list[p].tag@ == other || p == at);
            }
        }
    }
}

/// A neighbour is counted once, however often it is heard.
pub proof fn law_a_neighbour_counts_once(list: Seq<SourceLink>, s: SourceLink)
    requires
        each_once(list),
    ensures
        with_heard(with_heard(list, s), s) == with_heard(list, s),
        with_heard(list, s).len() <= list.len() + 1,
        heard_of(list, s.tag@) is Some ==> with_heard(list, s).len() == list.len(),
{
    let after = with_heard(list, s);
    lemma_with_heard_once(list, s);
    lemma_source_at(list, s.tag@, 0);
    let at = source_at(list, s.tag@, 0);
    assert(after[at] == s);
    lemma_source_found(after, s.tag@, at);
    assert(after.update(at, s) =~= after);
}

// ---------------------------------------------------------------------------
// Receiving
// ---------------------------------------------------------------------------

/// A captured frame.
pub struct RxFrame<'a> {
    /// The first address.
    pub group: Option<[u8; 6]>,
    /// The second address.
    pub addr: Option<[u8; 6]>,
    /// The third address.
    pub addr3: Option<[u8; 6]>,
    /// The signal strength in dBm.
    pub rssi_dbm: Option<i8>,
    /// The rate index.
    pub mcs_index: Option<u8>,
    /// What it carries.
    pub payload: &'a [u8],
    /// The name in it, in `/`-joined form, where there is one.
    pub name: Option<&'a [u8]>,
    /// What the receiver-side baseline says of the name.
    pub nic_serves: bool,
}

/// What the reader of a radio keeps.
pub struct RxReader {
    /// The radio has a scheduler.
    pub scheduled: bool,
    /// The admission gate, where there is one.
    pub gate: Option<NameGate>,
    /// The rate policy that received signals feed, where there is one.
    pub rate: Option<RatePolicy>,
    /// Received signals are published.
    pub publishes: bool,
    /// The number of the common-view observation last taken in.
    pub last_mesh: u64,
}

/// A frame that goes on to the engine.
#[derive(Debug, Clone, Copy)]
pub struct Delivery {
    /// The neighbour that sent it, where it is known.
    pub source: Option<[u8; 6]>,
    /// Its signals are published.
    pub publish: bool,
}

/// What becomes of a captured frame.
#[derive(Debug, Clone, Copy)]
pub enum RxVerdict {
    /// It is a time beacon with this reference, and goes nowhere else.
    Beacon(u64),
    /// The name gate dropped it.
    Dropped,
    /// It goes on to the engine.
    Deliver(Delivery),
}

/// Where a frame comes to in a reader.
#[derive(Debug, Clone, Copy, PartialEq, Eq, Structural)]
pub enum RxFate {
    /// It is a time beacon.
    Beacon,
    /// The name gate dropped it.
    Dropped,
    /// It goes on.
    Delivered,
}

impl RxReader {
    /// The name gate is well formed.
    pub open spec fn wf(&self) -> bool {
        self.gate matches Some(g) ==> g.wf()
    }

    /// What the name gate makes of a frame.
    pub open spec fn passage(&self, f: RxFrame) -> Passage {
        match self.gate {
            Some(g) => g.passage(
                name_gate::addr_view(f.group),
                name_gate::addr_view(f.addr),
                name_gate::addr_view(f.addr3),
                sched::name_view(f.name),
                f.nic_serves,
            ),
            None => Passage::Admitted,
        }
    }

    /// Where a frame comes to: a scheduled radio keeps time beacons to itself, and
    /// the name gate sees what is left.
    pub open spec fn fate(&self, f: RxFrame) -> RxFate {
        if self.scheduled && clock::beacon_time(f.payload@) is Some {
            RxFate::Beacon
        } else if self.passage(f) is Admitted {
            RxFate::Delivered
        } else {
            RxFate::Dropped
        }
    }

    /// Is a common-view observation with this running number new?
    pub fn mesh_is_new(&mut self, count: u64) -> (r: bool)
        ensures
            r == (count != old(self).last_mesh),
            *final(self) == (RxReader { last_mesh: count, ..*old(self) }),
    {
        if count == self.last_mesh {
            return false;
        }
        self.last_mesh = count;
        true
    }

    /// Takes a captured frame. A time beacon is kept from the engine, then the name gate
    /// decides. Only a frame that passes feeds the rate policy and the links.
    pub fn receive(&mut self, f: &RxFrame) -> (v: RxVerdict)
        requires
            old(self).wf(),
        ensures
            final(self).wf(),
            match old(self).fate(*f) {
                RxFate::Beacon => v matches RxVerdict::Beacon(t) && clock::beacon_time(f.payload@)
                    == Some(t as nat),
                RxFate::Dropped => v is Dropped,
                RxFate::Delivered => v matches RxVerdict::Deliver(d) && name_gate::addr_view(
                    d.source,
                ) == addressing::frame_sender(
                    name_gate::addr_view(f.group),
                    name_gate::addr_view(f.addr),
                    name_gate::addr_view(f.addr3),
                ) && d.publish == (old(self).publishes && (f.rssi_dbm is Some || f.mcs_index
                    is Some)),
            },
            final(self).scheduled == old(self).scheduled,
            final(self).publishes == old(self).publishes,
            final(self).last_mesh == old(self).last_mesh,
            final(self).rate == (match old(self).rate {
                Some(p) => if old(self).fate(*f) == RxFate::Delivered && f.rssi_dbm is Some {
                    Some(RatePolicy { last_rssi: f.rssi_dbm->0, ..p })
                } else {
                    Some(p)
                },
                None => None,
            }),
            match (old(self).gate, final(self).gate) {
                (Some(g), Some(h)) => {
                    &&& h.filter == g.filter
                    &&& h.tier1 == g.tier1
                    &&& h.dropped_tier0 == (if old(self).fate(*f) == RxFate::Dropped && old(
                        self,
                    ).passage(*f) is DroppedTier0 {
                        g.dropped_tier0.wrapping_add(1)
                    } else {
                        g.dropped_tier0
                    })
                    &&& h.dropped_tier1 == (if old(self).fate(*f) == RxFate::Dropped && old(
                        self,
                    ).passage(*f) is DroppedTier1 {
                        g.dropped_tier1.wrapping_add(1)
                    } else {
                        g.dropped_tier1
                    })
                },
                (None, None) => true,
                _ => false,
            },
    {
        if self.scheduled {
            if let Some(t) = FaceScheduler::parse_beacon(f.payload) {
                return RxVerdict::Beacon(t);
            }
        }
        let mut gate: Option<NameGate> = None;
        std::mem::swap(&mut gate, &mut self.gate);
        let mut passes: bool = true;
        if let Some(mut g) = gate {
            passes = g.admits(f.group, f.addr, f.addr3, f.name, f.nic_serves);
            self.gate = Some(g);
        }
        if !passes {
            return RxVerdict::Dropped;
        }
        if let Some(dbm) = f.rssi_dbm {
            if let Some(mut p) = self.rate {
                p.observe_rssi(dbm);
                self.rate = Some(p);
            }
        }
        let publish: bool = self.publishes && (f.rssi_dbm.is_some() || f.mcs_index.is_some());
        RxVerdict::Deliver(Delivery { source: sender_tag(f.group, f.addr, f.addr3), publish })
    }
}

/// A time beacon never reaches the engine of a scheduled radio, nor its gate.
pub proof fn law_time_beacons_stay_in_the_face(r: RxReader, f: RxFrame)
    requires
        r.scheduled,
        clock::beacon_time(f.payload@) is Some,
    ensures
        r.fate(f) == RxFate::Beacon,
{
}

/// A radio without scheduler and gate hands on everything it captures.
pub proof fn law_a_bare_reader_hands_on_everything(r: RxReader, f: RxFrame)
    requires
        !r.scheduled,
        r.gate is None,
    ensures
        r.fate(f) == RxFate::Delivered,
{
}

// ---------------------------------------------------------------------------
// Sending on several radios
// ---------------------------------------------------------------------------

/// How a frame that goes out on several radios went.
pub struct FanOut<E> {
    /// Some radio took it.
    pub sent: bool,
    /// The last failure.
    pub last_err: Option<E>,
}

/// How sending on these radios went.
pub open spec fn fanned<E>(results: Seq<Result<(), E>>) -> FanOut<E>
    decreases results.len(),
{
    if results.len() == 0 {
        FanOut { sent: false, last_err: None }
    } else {
        let before = fanned(results.drop_last());
        match results.last() {
            Ok(_) => FanOut { sent: true, ..before },
            Err(e) => FanOut { last_err: Some(e), ..before },
        }
    }
}

impl<E> FanOut<E> {
    /// The answer: a success where any radio took the frame, else the last failure,
    /// and `closed` where there was no radio.
    pub open spec fn answer(&self, closed: E) -> Result<(), E> {
        if self.sent {
            Ok(())
        } else {
            match self.last_err {
                Some(e) => Err(e),
                None => Err(closed),
            }
        }
    }

    /// Nothing was sent yet.
    pub fn new() -> (f: Self)
        ensures
            f == fanned(Seq::<Result<(), E>>::empty()),
    {
        FanOut { sent: false, last_err: None }
    }

    /// Takes how one radio went.
    pub fn note(&mut self, r: Result<(), E>)
        ensures
            *final(self) == (match r {
                Ok(_) => FanOut { sent: true, ..*old(self) },
                Err(e) => FanOut { last_err: Some(e), ..*old(self) },
            }),
            forall|before: Seq<Result<(), E>>|
                *old(self) == fanned(before) ==> *final(self) == #[trigger] fanned(
                    before.push(r),
                ),
    {
        let ghost start = *self;
        match r {
            Ok(_) => {
                self.sent = true;
            },
            Err(e) => {
                self.last_err = Some(e);
            },
        }
        proof {
            assert forall|before: Seq<Result<(), E>>| start == fanned(before) implies *self
                == #[trigger] fanned(before.push(r)) by {
                assert(before.push(r).drop_last() =~= before);
            }
        }
    }

    /// The answer to whoever sent the frame.
    pub fn finish(self, closed: E) -> (r: Result<(), E>)
        ensures
            r == self.answer(closed),
    {
        if self.sent {
            Ok(())
        } else {
            match self.last_err {
                Some(e) => Err(e),
                None => Err(closed),
            }
        }
    }
}

/// A frame counts as sent exactly where some radio took it; where none did, the
/// last failure is the answer.
pub proof fn law_any_radio_suffices<E>(results: Seq<Result<(), E>>, closed: E)
    ensures
        fanned(results).answer(closed) is Ok <==> exists|i: int|
            0 <= i < results.len() && (#[trigger] results[i]) is Ok,
        results.len() == 0 ==> fanned(results).answer(closed) == Err::<(), E>(closed),
        results.len() > 0 && fanned(results).answer(closed) is Err ==> fanned(results).answer(
            closed,
        ) == results.last(),
    decreases results.len(),
{
    if results.len() > 0 {
        let before = results.drop_last();
        law_any_radio_suffices(before, closed);
        if exists|i: int| 0 <= i < before.len() && (#[trigger] before[i]) is Ok {
            let i = choose|i: int| 0 <= i < before.len() && (#[trigger] before[i]) is Ok;
            assert(results[i] is Ok);
        }
        if exists|i: int| 0 <= i < results.len() && (#[trigger] results[i]) is Ok {
            let i = choose|i: int| 0 <= i < results.len() && (#[trigger] results[i]) is Ok;
            if i < before.len() {
                assert(before[i] is Ok);
            }
        }
        assert(results[results.len() - 1] == results.last());
    }
}

/// What is kept of several sendings: that one of them succeeded, and of the
/// failures the latest, whatever succeeded behind it.
pub proof fn law_the_latest_failure_is_kept<E>(results: Seq<Result<(), E>>, at: int, e: E)
    requires
        0 <= at < results.len(),
        results[at] == Err::<(), E>(e),
        forall|i: int| at < i < results.len() ==> (#[trigger] results[i]) is Ok,
    ensures
        fanned(results).last_err == Some(e),
        at + 1 < results.len() ==> fanned(results).sent,
    decreases results.len(),
{
    let last = results.len() - 1;
    if at < last {
        let before = results.drop_last();
        assert(results[last] is Ok);
        assert forall|i: int| at < i < before.len() implies (#[trigger] before[i]) is Ok by {
            assert(before[i] == results[i]);
        }
        law_the_latest_failure_is_kept(before, at, e);
    }
}

/// Where every sending succeeded, no failure is kept.
pub proof fn law_success_leaves_no_failure<E>(results: Seq<Result<(), E>>)
    requires
        forall|i: int| 0 <= i < results.len() ==> (#[trigger] results[i]) is Ok,
    ensures
        fanned(results).last_err is None,
    decreases results.len(),
{
    if results.len() > 0 {
        let before = results.drop_last();
        assert(results[results.len() - 1] is Ok);
        assert forall|i: int| 0 <= i < before.len() implies (#[trigger] before[i]) is Ok by {
            assert(before[i] == results[i]);
        }
        law_success_leaves_no_failure(before);
    }
}

// ---------------------------------------------------------------------------
// Setting up
// ---------------------------------------------------------------------------

/// The seed of a node's nonces: the boot time, the process and the face.
pub fn boot_seed(nanos: u64, pid: u32, face: u64) -> (s: u64)
    ensures
        s == nanos ^ ((pid as u64) << 32) ^ face.wrapping_mul(0x9e37_79b9),
{
    nanos ^ ((pid as u64) << 32) ^ face.wrapping_mul(0x9e37_79b9)
}

/// How long a nonce stands, in milliseconds.
pub const NONCE_ROTATION_MS: u64 = 300_000;

/// How often the clock master sends its beacon, in milliseconds.
pub const TIME_BEACON_MS: u64 = 100;

/// The frames of a coded generation: at least one.
pub fn generation_size(k: usize) -> (n: usize)
    ensures
        n == (if k == 0 {
            1
        } else {
            k as int
        }),
{
    if k == 0 {
        1
    } else {
        k
    }
}

/// What governs a radio: what it declares itself, else what its caller asserts.
pub fn effective<T>(declared: Option<T>, asserted: T) -> (c: T)
    ensures
        c == (match declared {
            Some(d) => d,
            None => asserted,
        }),
{
    match declared {
        Some(d) => d,
        None => asserted,
    }
}

/// When the control loop refreshes what it decides for.
#[derive(Debug, Clone, Copy, PartialEq, Eq, Structural)]
pub struct RefreshTimer {
    /// Ticks since the last refresh.
    pub since: u32,
}

impl RefreshTimer {
    /// A timer whose first tick refreshes.
    pub fn new() -> (t: Self)
        ensures
            t.since == u32::MAX,
    {
        RefreshTimer { since: u32::MAX }
    }

    /// Takes a tick. Every `every`-th refreshes, and each one where `every` is 0.
    pub fn tick(&mut self, every: u32) -> (due: bool)
        ensures
            ({
                let n = if old(self).since < u32::MAX {
                    old(self).since + 1
                } else {
                    u32::MAX as int
                };
                &&& due == (n >= every && n >= 1)
                &&& final(self).since == (if due {
                    0
                } else {
                    n
                })
            }),
    {
        let n: u32 = self.since.saturating_add(1);
        let least: u32 = if every == 0 { 1 } else { every };
        if n >= least {
            self.since = 0;
            true
        } else {
            self.since = n;
            false
        }
    }
}

/// What a frame shows to be missing: every number between the last one and its own, and
/// nothing where it is not ahead or nothing came before it.
pub proof fn law_what_a_frame_shows_to_be_missing(m: LossMeter, seq: u64)
    ensures
        m.last_seq == u64::MAX || seq <= m.last_seq ==> m.missing_before(seq) == 0,
        m.last_seq != u64::MAX && seq > m.last_seq ==> m.last_seq + 1 + m.missing_before(seq)
            == seq,
{
}

/// The neighbours that count are those heard no longer ago than asked for, each of them
/// and no other.
pub proof fn law_recent_neighbours_are_counted(
    list: Seq<SourceLink>,
    n: int,
    within_ms: u64,
    now_ms: u64,
)
    requires
        0 <= n <= list.len(),
    ensures
        recent_among(list, n, within_ms, now_ms) == list.take(n).filter(
            |s: SourceLink| now_ms - s.signals.updated_ms <= within_ms,
        ).len(),
    decreases n,
{
    let p = |s: SourceLink| now_ms - s.signals.updated_ms <= within_ms;
    reveal(Seq::filter);
    if n > 0 {
        law_recent_neighbours_are_counted(list, n - 1, within_ms, now_ms);
        assert(list.take(n).drop_last() =~= list.take(n - 1));
        assert(list.take(n).last() == list[n - 1]);
    }
}

/// What is known of a neighbour is what stands under its nonce, and nothing is known of
/// one that does not stand in the list.
pub proof fn law_a_neighbour_is_found_by_its_nonce(list: Seq<SourceLink>, tag: Seq<u8>, i: int)
    requires
        each_once(list),
    ensures
        0 <= i < list.len() && list[i].tag@ == tag ==> heard_of(list, tag) == Some(list[i].signals),
        (forall|j: int| 0 <= j < list.len() ==> (#[trigger] list[j]).tag@ != tag) ==> heard_of(
            list,
            tag,
        ) is None,
{
    lemma_source_at(list, tag, 0);
    if 0 <= i < list.len() && list[i].tag@ == tag {
        lemma_source_found(list, tag, i);
    }
}

/// The name gate is asked about every frame that is no beacon of a scheduled radio, with
/// all of the frame's addresses and its name, and its answer stands.
pub proof fn law_the_gate_is_asked_about_every_frame(r: RxReader, g: NameGate, f: RxFrame)
    requires
        r.gate == Some(g),
        !r.scheduled || clock::beacon_time(f.payload@) is None,
    ensures
        ({
            let group = match f.group {
                Some(a) => Some(a@),
                None => None,
            };
            let addr = match f.addr {
                Some(a) => Some(a@),
                None => None,
            };
            let addr3 = match f.addr3 {
                Some(a) => Some(a@),
                None => None,
            };
            let name = match f.name {
                Some(n) => Some(n@),
                None => None,
            };
            &&& r.passage(f) == g.passage(group, addr, addr3, name, f.nic_serves)
            &&& r.fate(f) == RxFate::Delivered <==> r.passage(f) is Admitted
            &&& r.fate(f) == RxFate::Dropped <==> !(r.passage(f) is Admitted)
        }),
{
}

/// Without a gate only the beacons of a scheduled radio are held back.
pub proof fn law_without_a_gate_only_beacons_stay(r: RxReader, f: RxFrame)
    requires
        r.gate is None,
    ensures
        r.fate(f) == RxFate::Beacon <==> r.scheduled && clock::beacon_time(f.payload@) is Some,
        r.fate(f) != RxFate::Dropped,
{
}

/// No neighbour stands twice in a store that is well formed.
pub proof fn law_each_neighbour_stands_once(s: LinkSignalStore, i: int, j: int)
    requires
        s.wf(),
        0 <= i < s.sources@.len(),
        0 <= j < s.sources@.len(),
        s.sources@[i].tag@ == s.sources@[j].tag@,
    ensures
        i == j,
{
    if i < j {
        assert(s.sources@[i].tag@ != s.sources@[j].tag@);
    } else if j < i {
        assert(s.sources@[j].tag@ != s.sources@[i].tag@);
    }
}

/// Hearing a neighbour puts what was heard in its place, or at the end where it is new,
/// and moves no other.
pub proof fn law_hearing_moves_nobody(list: Seq<SourceLink>, s: SourceLink, j: int)
    requires
        each_once(list),
        0 <= j < list.len(),
    ensures
        ({
            let after = with_heard(list, s);
            &&& list[j].tag@ != s.tag@ ==> after[j] == list[j]
            &&& list[j].tag@ == s.tag@ ==> after[j] == s && after.len() == list.len()
            &&& heard_of(list, s.tag@) is None ==> after == list.push(s)
        }),
{
    lemma_source_at(list, s.tag@, 0);
    if list[j].tag@ == s.tag@ {
        lemma_source_found(list, s.tag@, j);
    }
}

/// A reader is well formed exactly where its gate is.
pub proof fn law_the_form_of_a_reader(r: RxReader)
    ensures
        r.gate is None ==> r.wf(),
        r.gate matches Some(g) ==> (r.wf() <==> g.wf()),
{
}

/// How long a nonce stands and how often a beacon goes out.
pub proof fn law_the_timers()
    ensures
        NONCE_ROTATION_MS == 300_000,
        TIME_BEACON_MS == 100,
{
}

} // verus!
