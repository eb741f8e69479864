//! One face over several bearers: which bearers a packet goes out on, how the
//! sends are answered, and how a packet that several bearers deliver is handed on
//! once.

use std::collections::hash_map::DefaultHasher;
use std::collections::{HashSet, VecDeque};
use std::hash::Hasher;

use smallvec::SmallVec;

use vstd::prelude::*;

use crate::groups;
use crate::groups::prefix_covers;

verus! {

broadcast use vstd::std_specs::hash::group_hash_axioms;

/// The kind of a bearer.
#[derive(Debug, Clone, Copy, PartialEq, Eq, Structural)]
pub enum BearerKind {
    /// Wi-Fi.
    Wifi,
    /// Bluetooth Low Energy.
    Ble,
    /// LoRa.
    LoRa,
    /// Something else.
    Other,
}

/// What the choice of a bearer rests on.
#[derive(Debug, Clone, Copy, PartialEq, Eq, Structural)]
pub struct BearerInfo {
    /// The kind.
    pub kind: BearerKind,
    /// The largest frame, in octets.
    pub mtu: usize,
    /// The reach; higher is farther and more robust.
    pub range_rank: u8,
}

/// What a packet asks for.
#[derive(Debug, Clone, Copy, PartialEq, Eq, Structural)]
pub enum ReachClass {
    /// To get far.
    Robust,
    /// To get there fast.
    Throughput,
    /// To get there at all: out on every bearer.
    Redundant,
}

// ---------------------------------------------------------------------------
// Selection
// ---------------------------------------------------------------------------

/// The bearers that a packet goes out on, by their indices, in a
/// `smallvec::SmallVec`: mostly one or two, so mostly without an allocation.
#[verifier::external_body]
pub struct Selection {
    items: SmallVec<[usize; 2]>,
}

/// What the `SmallVec` of a selection holds, in order.
pub uninterp spec fn chosen(s: Selection) -> Seq<usize>;

impl View for Selection {
    type V = Seq<usize>;

    open spec fn view(&self) -> Seq<usize> {
        chosen(*self)
    }
}

/// Calls `smallvec::SmallVec::from_slice`: the new vector holds the elements of the
/// slice, in order.
#[verifier::external_body]
fn selection_of(items: &[usize]) -> (s: Selection)
    ensures
        chosen(s) == items@,
{
    Selection { items: SmallVec::from_slice(items) }
}

/// Calls `smallvec::SmallVec::as_slice`: the slice is all that the vector holds, in
/// order.
#[verifier::external_body]
fn selected_slice(s: &Selection) -> (r: &[usize])
    ensures
        r@ == chosen(*s),
{
    s.items.as_slice()
}

impl Selection {
    /// The indices, in order.
    pub fn as_slice(&self) -> (r: &[usize])
        ensures
            r@ == self@,
    {
        selected_slice(self)
    }

    /// Does the packet go out nowhere?
    pub fn is_empty(&self) -> (r: bool)
        ensures
            r == (self@.len() == 0),
    {
        selected_slice(self).len() == 0
    }
}

/// All indices of a list.
pub open spec fn all_indices(n: nat) -> Seq<usize> {
    Seq::new(n, |i: int| i as usize)
}

/// What a class ranks bearers by.
pub open spec fn rank(b: BearerInfo, class: ReachClass) -> int {
    match class {
        ReachClass::Robust => b.range_rank as int,
        _ => b.mtu as int,
    }
}

/// The last of the highest ranked among the first `n` bearers.
pub open spec fn last_best(bearers: Seq<BearerInfo>, class: ReachClass, n: int) -> int
    decreases n,
{
    if n <= 1 {
        0
    } else {
        let b = last_best(bearers, class, n - 1);
        if rank(bearers[n - 1], class) >= rank(bearers[b], class) {
            n - 1
        } else {
            b
        }
    }
}

/// The bearers that a class goes out on.
pub open spec fn selection(bearers: Seq<BearerInfo>, class: ReachClass) -> Seq<usize> {
    if bearers.len() == 0 {
        Seq::empty()
    } else if class == ReachClass::Redundant {
        all_indices(bearers.len())
    } else {
        seq![last_best(bearers, class, bearers.len() as int) as usize]
    }
}

/// Lists all bearers.
fn every_bearer(bearers: &Vec<BearerInfo>) -> (sel: Selection)
    ensures
        sel@ == all_indices(bearers@.len()),
{
    let mut out: Vec<usize> = Vec::new();
    let mut i: usize = 0;
    while i < bearers.len()
        invariant
            i <= bearers.len(),
            out@ == all_indices(i as nat),
        decreases bearers.len() - i,
    {
        out.push(i);
        i = i + 1;
        assert(out@ =~= all_indices(i as nat));
    }
    selection_of(out.as_slice())
}

/// Lists none.
fn no_bearer() -> (sel: Selection)
    ensures
        sel@ == Seq::<usize>::empty(),
{
    let none: Vec<usize> = Vec::new();
    selection_of(none.as_slice())
}

/// Sends every packet on all bearers.
#[derive(Debug, Clone, Copy, PartialEq, Eq, Structural)]
pub struct BroadcastAllBearers;

impl BroadcastAllBearers {
    /// All bearers, whatever the packet.
    pub fn select(&self, _wire: &[u8], bearers: &Vec<BearerInfo>) -> (sel: Selection)
        ensures
            sel@ == all_indices(bearers@.len()),
    {
        every_bearer(bearers)
    }
}

/// The bearers that a class goes out on.
pub fn select_for(class: ReachClass, bearers: &Vec<BearerInfo>) -> (sel: Selection)
    ensures
        sel@ == selection(bearers@, class),
        class == ReachClass::Redundant ==> sel@.len() == bearers@.len(),
        class != ReachClass::Redundant && bearers@.len() > 0 ==> sel@.len() == 1 && sel@[0]
            < bearers@.len(),
        class == ReachClass::Robust ==> forall|i: int|
            0 <= i < bearers@.len() ==> (#[trigger] bearers@[i]).range_rank
                <= bearers@[sel@[0] as int].range_rank,
        class == ReachClass::Throughput ==> forall|i: int|
            0 <= i < bearers@.len() ==> (#[trigger] bearers@[i]).mtu <= bearers@[sel@[0] as int].mtu,
{
    if bearers.len() == 0 {
        return no_bearer();
    }
    if class == ReachClass::Redundant {
        return every_bearer(bearers);
    }
    let mut best: usize = 0;
    let mut i: usize = 1;
    while i < bearers.len()
        invariant
            1 <= i <= bearers.len(),
            best < i,
            best == last_best(bearers@, class, i as int),
            class != ReachClass::Redundant,
        decreases bearers.len() - i,
    {
        let better: bool = match class {
            ReachClass::Robust => bearers[i].range_rank >= bearers[best].range_rank,
            _ => bearers[i].mtu >= bearers[best].mtu,
        };
        if better {
            best = i;
        }
        i = i + 1;
    }
    proof {
        lemma_last_best(bearers@, class, bearers@.len() as int);
        assert forall|j: int| 0 <= j < bearers@.len() implies rank(#[trigger] bearers@[j], class)
            <= rank(bearers@[best as int], class) by {}
    }
    let mut only: Vec<usize> = Vec::new();
    only.push(best);
    assert(only@ =~= seq![best]);
    selection_of(only.as_slice())
}

/// Classes packets, and sends each on the bearers that its class wants.
pub struct ReachClassPolicy<F: Fn(&[u8]) -> ReachClass> {
    /// The class of a packet.
    pub classify: F,
}

impl<F: Fn(&[u8]) -> ReachClass> ReachClassPolicy<F> {
    /// The bearers for a packet. The packet is not classed where there are none.
    pub fn select(&self, wire: &[u8], bearers: &Vec<BearerInfo>) -> (sel: Selection)
        requires
            call_requires(self.classify, (wire,)),
        ensures
            bearers@.len() == 0 ==> sel@.len() == 0,
            bearers@.len() > 0 ==> exists|class: ReachClass|
                call_ensures(self.classify, (wire,), class) && sel@ == #[trigger] selection(
                    bearers@,
                    class,
                ),
    {
        if bearers.len() == 0 {
            return no_bearer();
        }
        let class: ReachClass = (self.classify)(wire);
        select_for(class, bearers)
    }
}

/// A prefix and the class of the names under it.
pub struct ReachRule {
    /// The prefix, in `/`-joined form.
    pub prefix: Vec<u8>,
    /// The class.
    pub class: ReachClass,
}

/// Classes names by the longest prefix with a rule.
pub struct NameReachClassifier {
    /// The class of names without a rule.
    pub default_class: ReachClass,
    /// The rules.
    pub rules: Vec<ReachRule>,
}

/// The rule with the longest prefix that covers the name, among the first `n`; the
/// earliest where several are as long.
pub open spec fn best_rule(rules: Seq<ReachRule>, name: Seq<u8>, n: int) -> Option<int>
    decreases n,
{
    if n <= 0 {
        None
    } else {
        let before = best_rule(rules, name, n - 1);
        if groups::covers(rules[n - 1].prefix@, name) && (before is None
            || rules[n - 1].prefix@.len() > rules[before->0].prefix@.len()) {
            Some(n - 1)
        } else {
            before
        }
    }
}

impl NameReachClassifier {
    /// The class of a name.
    pub open spec fn class_of(&self, name: Seq<u8>) -> ReachClass {
        match best_rule(self.rules@, name, self.rules@.len() as int) {
            Some(i) => self.rules@[i].class,
            None => self.default_class,
        }
    }

    /// A classifier without rules.
    pub fn new(default_class: ReachClass) -> (c: Self)
        ensures
            c.default_class == default_class,
            c.rules@.len() == 0,
    {
        NameReachClassifier { default_class, rules: Vec::new() }
    }

    /// Adds a rule.
    pub fn rule(self, prefix: Vec<u8>, class: ReachClass) -> (c: Self)
        ensures
            c.default_class == self.default_class,
            c.rules@ == self.rules@.push(ReachRule { prefix, class }),
    {
        let mut rules: Vec<ReachRule> = self.rules;
        rules.push(ReachRule { prefix, class });
        NameReachClassifier { default_class: self.default_class, rules }
    }

    /// The class of a packet's name, in `/`-joined form; a packet without a name
    /// has the default class.
    pub fn classify(&self, name: Option<&[u8]>) -> (class: ReachClass)
        ensures
            class == (match name {
                Some(n) => self.class_of(n@),
                None => self.default_class,
            }),
    {
        let n: &[u8] = match name {
            None => {
                return self.default_class;
            },
            Some(n) => n,
        };
        let mut best: Option<usize> = None;
        let mut i: usize = 0;
        while i < self.rules.len()
            invariant
                i <= self.rules.len(),
                best matches Some(b) ==> b < i,
                match best_rule(self.rules@, n@, i as int) {
                    Some(b) => best is Some && best->0 == b,
                    None => best is None,
                },
            decreases self.rules.len() - i,
        {
            if prefix_covers(self.rules[i].prefix.as_slice(), n) {
                let longer: bool = match best {
                    Some(b) => self.rules[i].prefix.len() > self.rules[b].prefix.len(),
                    None => true,
                };
                if longer {
                    best = Some(i);
                }
            }
            i = i + 1;
        }
        match best {
            Some(b) => self.rules[b].class,
            None => self.default_class,
        }
    }
}

// ---------------------------------------------------------------------------
// Sending
// ---------------------------------------------------------------------------

/// How the sends on the selected bearers went.
pub struct SendOutcome<E> {
    /// The last failure.
    pub last_err: Option<E>,
}

/// The last failure among results.
pub open spec fn last_failure<E>(results: Seq<Result<(), E>>) -> Option<E>
    decreases results.len(),
{
    if results.len() == 0 {
        None
    } else {
        match results.last() {
            Ok(_) => last_failure(results.drop_last()),
            Err(e) => Some(e),
        }
    }
}

impl<E> SendOutcome<E> {
    /// Nothing was sent.
    pub fn new() -> (s: Self)
        ensures
            s.last_err == last_failure(Seq::<Result<(), E>>::empty()),
    {
        SendOutcome { last_err: None }
    }

    /// Takes how one bearer went.
    pub fn note(&mut self, r: Result<(), E>)
        ensures
            final(self).last_err == (match r {
                Ok(_) => old(self).last_err,
                Err(e) => Some(e),
            }),
            forall|before: Seq<Result<(), E>>|
                old(self).last_err == last_failure(before) ==> final(self).last_err
                    == #[trigger] last_failure(before.push(r)),
    {
        let ghost start = self.last_err;
        if let Err(e) = r {
            self.last_err = Some(e);
        }
        proof {
            assert forall|before: Seq<Result<(), E>>| start == last_failure(before) implies
                self.last_err == #[trigger] last_failure(before.push(r)) by {
                assert(before.push(r).drop_last() =~= before);
            }
        }
    }

    /// The answer: the last failure, or a success where nothing failed. Nothing
    /// selected is a success too: the packet was dropped on purpose.
    pub fn finish(self) -> (r: Result<(), E>)
        ensures
            r == (match self.last_err {
                Some(e) => Err(e),
                None => Ok(()),
            }),
    {
        match self.last_err {
            Some(e) => Err(e),
            None => Ok(()),
        }
    }
}

// ---------------------------------------------------------------------------
// Receiving
// ---------------------------------------------------------------------------

/// Packets that are remembered.
pub const DEDUP_CAP: usize = 4096;

/// What a packet is remembered by.
pub open spec fn object_key(wire: Seq<u8>) -> u64 {
    <DefaultHasher as vstd::std_specs::hash::DefaultHasherAdditionalSpecFns>::spec_finish(
        seq![wire],
    )
}

/// The packets seen lately.
pub struct Dedup {
    /// Their keys.
    pub seen: HashSet<u64>,
    /// Their keys, oldest first.
    pub order: VecDeque<u64>,
    /// How many are remembered at most.
    pub cap: usize,
}

/// The keys after a new one came, oldest first.
pub open spec fn after_new(order: Seq<u64>, key: u64, cap: usize) -> Seq<u64> {
    if order.len() + 1 > cap {
        order.push(key).skip(1)
    } else {
        order.push(key)
    }
}

impl Dedup {
    /// The two records agree, no key stands twice, and the cap is kept.
    pub open spec fn wf(&self) -> bool {
        &&& self.order@.len() <= self.cap
        &&& self.order@.no_duplicates()
        &&& forall|k: u64| self.seen@.contains(k) == #[trigger] self.order@.contains(k)
    }

    /// Nothing was seen.
    pub fn new(cap: usize) -> (d: Self)
        ensures
            d.wf(),
            d.order@.len() == 0,
            d.cap == cap,
    {
        Dedup { seen: HashSet::new(), order: VecDeque::new(), cap }
    }

    /// Was this packet seen lately? If not, it is from now on, and the oldest is
    /// forgotten where there is no room.
    pub fn is_dup(&mut self, wire: &[u8]) -> (dup: bool)
        requires
            old(self).wf(),
        ensures
            final(self).wf(),
            final(self).cap == old(self).cap,
            dup == old(self).order@.contains(object_key(wire@)),
            object_key(wire@)
                == <DefaultHasher as vstd::std_specs::hash::DefaultHasherAdditionalSpecFns>::spec_finish(
                seq![wire@],
            ),
            final(self).order@ == (if dup {
                old(self).order@
            } else {
                after_new(old(self).order@, object_key(wire@), old(self).cap)
            }),
    {
        let mut h = DefaultHasher::new();
        h.write(wire);
        let key: u64 = h.finish();
        assert(h@ =~= seq![wire@]);
        let ghost before = self.order@;
        if self.seen.contains(&key) {
            assert(self.order@.contains(key));
            return true;
        }
        assert(!before.contains(key));
        self.seen.insert(key);
        self.order.push_back(key);
        proof {
            lemma_pushed(before, key);
        }
        if self.order.len() > self.cap {
            if let Some(oldest) = self.order.pop_front() {
                self.seen.remove(&oldest);
                proof {
                    lemma_dropped(before.push(key));
                }
            }
        }
        false
    }
}

proof fn lemma_pushed(order: Seq<u64>, key: u64)
    requires
        order.no_duplicates(),
        !order.contains(key),
    ensures
        order.push(key).no_duplicates(),
        forall|k: u64| #[trigger] order.push(key).contains(k) == (order.contains(k) || k == key),
{
    let all = order.push(key);
    assert forall|k: u64| #[trigger] all.contains(k) == (order.contains(k) || k == key) by {
        if order.contains(k) {
            let i = choose|i: int| 0 <= i < order.len() && order[i] == k;
            assert(all[i] == k);
        }
        if k == key {
            assert(all[order.len() as int] == k);
        }
        if all.contains(k) {
            let i = choose|i: int| 0 <= i < all.len() && all[i] == k;
            if i < order.len() {
                assert(order[i] == k);
            }
        }
    }
}

proof fn lemma_dropped(order: Seq<u64>)
    requires
        order.no_duplicates(),
        order.len() > 0,
    ensures
        order.skip(1).no_duplicates(),
        forall|k: u64| #[trigger]
            order.skip(1).contains(k) == (order.contains(k) && k != order[0]),
{
    let rest = order.skip(1);
    assert forall|k: u64| #[trigger] rest.contains(k) == (order.contains(k) && k != order[0]) by {
        if rest.contains(k) {
            let i = choose|i: int| 0 <= i < rest.len() && rest[i] == k;
            assert(order[i + 1] == k);
        }
        if order.contains(k) && k != order[0] {
            let i = choose|i: int| 0 <= i < order.len() && order[i] == k;
            assert(rest[i - 1] == k);
        }
    }
}

// ---------------------------------------------------------------------------
// Laws
// ---------------------------------------------------------------------------

proof fn lemma_last_best(bearers: Seq<BearerInfo>, class: ReachClass, n: int)
    requires
        1 <= n <= bearers.len(),
    ensures
        0 <= last_best(bearers, class, n) < n,
        forall|i: int|
            0 <= i < n ==> rank(#[trigger] bearers[i], class) <= rank(
                bearers[last_best(bearers, class, n)],
                class,
            ),
        forall|i: int|
            last_best(bearers, class, n) < i < n ==> rank(#[trigger] bearers[i], class) < rank(
                bearers[last_best(bearers, class, n)],
                class,
            ),
    decreases n,
{
    if n > 1 {
        lemma_last_best(bearers, class, n - 1);
    }
}

/// The robust class goes out on one bearer that none outreaches, the fast class on
/// one that none outsizes.
pub proof fn law_selection_takes_the_best_bearer(bearers: Seq<BearerInfo>, i: int)
    requires
        0 <= i < bearers.len(),
    ensures
        selection(bearers, ReachClass::Robust).len() == 1,
        last_best(bearers, ReachClass::Robust, bearers.len() as int) < bearers.len(),
        bearers[i].range_rank <= bearers[last_best(
            bearers,
            ReachClass::Robust,
            bearers.len() as int,
        )].range_rank,
        selection(bearers, ReachClass::Throughput).len() == 1,
        last_best(bearers, ReachClass::Throughput, bearers.len() as int) < bearers.len(),
        bearers[i].mtu <= bearers[last_best(
            bearers,
            ReachClass::Throughput,
            bearers.len() as int,
        )].mtu,
{
    lemma_last_best(bearers, ReachClass::Robust, bearers.len() as int);
    lemma_last_best(bearers, ReachClass::Throughput, bearers.len() as int);
    assert(rank(bearers[i], ReachClass::Robust) == bearers[i].range_rank);
    assert(rank(bearers[i], ReachClass::Throughput) == bearers[i].mtu);
}

/// The robust class goes out on one bearer of the list that none outreaches, and on
/// the last of those that reach as far.
pub proof fn law_the_robust_bearer_reaches_farthest(bearers: Seq<BearerInfo>, i: int)
    requires
        0 <= i < bearers.len() <= usize::MAX,
    ensures
        ({
            let sel = selection(bearers, ReachClass::Robust);
            &&& sel.len() == 1
            &&& sel[0] < bearers.len()
            &&& bearers[i].range_rank <= bearers[sel[0] as int].range_rank
            &&& i > sel[0] ==> bearers[i].range_rank < bearers[sel[0] as int].range_rank
        }),
{
    lemma_last_best(bearers, ReachClass::Robust, bearers.len() as int);
    assert(rank(bearers[i], ReachClass::Robust) == bearers[i].range_rank);
}

/// The fast class goes out on one bearer of the list that none outsizes, and on the
/// last of those that are as large.
pub proof fn law_the_fast_bearer_is_the_largest(bearers: Seq<BearerInfo>, i: int)
    requires
        0 <= i < bearers.len() <= usize::MAX,
    ensures
        ({
            let sel = selection(bearers, ReachClass::Throughput);
            &&& sel.len() == 1
            &&& sel[0] < bearers.len()
            &&& bearers[i].mtu <= bearers[sel[0] as int].mtu
            &&& i > sel[0] ==> bearers[i].mtu < bearers[sel[0] as int].mtu
        }),
{
    lemma_last_best(bearers, ReachClass::Throughput, bearers.len() as int);
    assert(rank(bearers[i], ReachClass::Throughput) == bearers[i].mtu);
}

/// The redundant class goes out on every bearer, each once and in order; no class goes
/// out where there is no bearer.
pub proof fn law_redundant_packets_go_out_everywhere(bearers: Seq<BearerInfo>, i: int, class: ReachClass)
    requires
        0 <= i < bearers.len() <= usize::MAX,
    ensures
        selection(bearers, ReachClass::Redundant).len() == bearers.len(),
        selection(bearers, ReachClass::Redundant)[i] == i,
        all_indices(bearers.len()).len() == bearers.len(),
        all_indices(bearers.len())[i] == i,
        selection(Seq::empty(), class).len() == 0,
{
}

/// Two packets share a key only where the hash of all their octets collides.
pub proof fn law_a_packet_is_known_by_all_its_octets(a: Seq<u8>, b: Seq<u8>)
    requires
        object_key(a) == object_key(b),
    ensures
        <DefaultHasher as vstd::std_specs::hash::DefaultHasherAdditionalSpecFns>::spec_finish(
            seq![a],
        ) == <DefaultHasher as vstd::std_specs::hash::DefaultHasherAdditionalSpecFns>::spec_finish(
            seq![b],
        ),
{
}

/// A packet is not mistaken for another: where the hash of all its octets differs from
/// that of a packet that was just handed on, it counts as seen exactly where it did
/// before, save for the oldest that was forgotten.
pub proof fn law_another_packet_is_handed_on(order: Seq<u64>, a: Seq<u8>, b: Seq<u8>, cap: usize)
    requires
        <DefaultHasher as vstd::std_specs::hash::DefaultHasherAdditionalSpecFns>::spec_finish(
            seq![a],
        ) != <DefaultHasher as vstd::std_specs::hash::DefaultHasherAdditionalSpecFns>::spec_finish(
            seq![b],
        ),
        !order.contains(object_key(b)),
    ensures
        !after_new(order, object_key(a), cap).contains(object_key(b)),
{
    let after = after_new(order, object_key(a), cap);
    if after.contains(object_key(b)) {
        let i = choose|i: int| 0 <= i < after.len() && after[i] == object_key(b);
        let all = order.push(object_key(a));
        let j = if order.len() + 1 > cap {
            i + 1
        } else {
            i
        };
        assert(all[j] == object_key(b));
        if j < order.len() {
            assert(order.contains(order[j]));
        }
    }
}

/// The cap is kept, whatever comes, and what comes is remembered last.
pub proof fn law_the_newest_is_remembered_last(order: Seq<u64>, key: u64, cap: usize)
    requires
        order.len() <= cap,
    ensures
        after_new(order, key, cap).len() <= cap,
        cap > 0 ==> after_new(order, key, cap).len() > 0 && after_new(order, key, cap).last() == key,
        order.len() < cap ==> after_new(order, key, cap) == order.push(key),
        order.len() == cap && cap > 0 ==> after_new(order, key, cap) == order.skip(1).push(key),
{
    if order.len() == cap && cap > 0 {
        assert(order.push(key).skip(1) =~= order.skip(1).push(key));
    }
}

/// A packet that was just handed on is not handed on again: its copy from another
/// bearer is a duplicate.
pub proof fn law_a_copy_is_a_duplicate(order: Seq<u64>, wire: Seq<u8>, cap: usize)
    requires
        cap > 0,
    ensures
        after_new(order, object_key(wire), cap).contains(object_key(wire)),
{
    let after = after_new(order, object_key(wire), cap);
    assert(after[after.len() - 1] == object_key(wire));
}

/// A packet stays remembered while there is room: of those seen before, only the
/// oldest is forgotten, and only where the cap is reached.
pub proof fn law_only_the_oldest_is_forgotten(order: Seq<u64>, key: u64, cap: usize, i: int)
    requires
        0 <= i < order.len(),
    ensures
        i > 0 ==> after_new(order, key, cap).contains(order[i]),
        order.len() < cap ==> after_new(order, key, cap).contains(order[i]),
{
    let after = after_new(order, key, cap);
    if order.len() + 1 > cap {
        if i > 0 {
            assert(after[i - 1] == order[i]);
        }
    } else {
        assert(after[i] == order[i]);
    }
}

/// The rule that counts is the longest that covers the name.
pub proof fn law_the_longest_rule_counts(rules: Seq<ReachRule>, name: Seq<u8>, n: int, i: int)
    requires
        0 <= i < n <= rules.len(),
        groups::covers(rules[i].prefix@, name),
    ensures
        best_rule(rules, name, n) is Some,
        0 <= best_rule(rules, name, n)->0 < n,
        groups::covers(rules[best_rule(rules, name, n)->0].prefix@, name),
        rules[i].prefix@.len() <= rules[best_rule(rules, name, n)->0].prefix@.len(),
    decreases n,
{
    if i < n - 1 {
        law_the_longest_rule_counts(rules, name, n - 1, i);
    } else {
        lemma_best_rule(rules, name, n - 1);
    }
}

proof fn lemma_best_rule(rules: Seq<ReachRule>, name: Seq<u8>, n: int)
    requires
        0 <= n <= rules.len(),
    ensures
        best_rule(rules, name, n) matches Some(b) ==> 0 <= b < n && groups::covers(
            rules[b].prefix@,
            name,
        ),
    decreases n,
{
    if n > 0 {
        lemma_best_rule(rules, name, n - 1);
    }
}

/// A name that no rule covers has the default class.
pub proof fn law_uncovered_names_have_the_default_class(c: NameReachClassifier, name: Seq<u8>)
    requires
        forall|i: int|
            0 <= i < c.rules@.len() ==> !groups::covers((#[trigger] c.rules@[i]).prefix@, name),
    ensures
        c.class_of(name) == c.default_class,
{
    lemma_best_rule(c.rules@, name, c.rules@.len() as int);
}

/// The class of a name is that of the longest rule that covers it, and of the earliest
/// of those that are as long.
pub proof fn law_the_longest_rule_classes_a_name(c: NameReachClassifier, name: Seq<u8>, i: int)
    requires
        0 <= i < c.rules@.len(),
        groups::covers(c.rules@[i].prefix@, name),
        forall|j: int|
            0 <= j < c.rules@.len() && groups::covers((#[trigger] c.rules@[j]).prefix@, name)
                ==> c.rules@[j].prefix@.len() < c.rules@[i].prefix@.len() || c.rules@[j].prefix@.len()
                == c.rules@[i].prefix@.len() && i <= j,
    ensures
        c.class_of(name) == c.rules@[i].class,
{
    let n = c.rules@.len() as int;
    law_the_longest_rule_counts(c.rules@, name, n, i);
    lemma_earliest_rule(c.rules@, name, n);
    let b = best_rule(c.rules@, name, n)->0;
    assert(groups::covers(c.rules@[b].prefix@, name));
    if b != i {
        assert(c.rules@[b].prefix@.len() == c.rules@[i].prefix@.len());
        assert(i < b);
    }
}

proof fn lemma_earliest_rule(rules: Seq<ReachRule>, name: Seq<u8>, n: int)
    requires
        0 <= n <= rules.len(),
    ensures
        best_rule(rules, name, n) matches Some(b) ==> forall|j: int|
            0 <= j < b && groups::covers((#[trigger] rules[j]).prefix@, name)
                ==> rules[j].prefix@.len() < rules[b].prefix@.len(),
    decreases n,
{
    if n > 0 {
        lemma_earliest_rule(rules, name, n - 1);
        lemma_best_rule(rules, name, n - 1);
        let here = best_rule(rules, name, n);
        let before = best_rule(rules, name, n - 1);
        if here is Some && here != before {
            assert forall|j: int|
                0 <= j < n - 1 && groups::covers((#[trigger] rules[j]).prefix@, name) implies
                rules[j].prefix@.len() < rules[n - 1].prefix@.len() by {
                law_the_longest_rule_counts(rules, name, n - 1, j);
            }
        }
    }
}

/// The answer to a send is the last failure, whatever succeeded beside it; without a
/// failure it is a success.
pub proof fn law_the_last_failure_is_the_answer<E>(results: Seq<Result<(), E>>, i: int)
    ensures
        (forall|j: int| 0 <= j < results.len() ==> (#[trigger] results[j]) is Ok) ==> last_failure(
            results,
        ) is None,
        0 <= i < results.len() && results[i] is Err && (forall|j: int|
            i < j < results.len() ==> (#[trigger] results[j]) is Ok) ==> last_failure(results)
            == Some(results[i]->Err_0),
    decreases results.len(),
{
    if results.len() > 0 {
        law_the_last_failure_is_the_answer(results.drop_last(), i);
        assert(results.last() == results[results.len() - 1]);
        assert forall|j: int| 0 <= j < results.drop_last().len() implies results.drop_last()[j]
            == results[j] by {}
    }
}

/// What is remembered stands in both records, once, and within the cap.
pub proof fn law_the_form_of_what_is_remembered(d: Dedup, key: u64, i: int, j: int)
    requires
        d.wf(),
    ensures
        d.order@.len() <= d.cap,
        d.seen@.contains(key) <==> d.order@.contains(key),
        0 <= i < d.order@.len() && 0 <= j < d.order@.len() && d.order@[i] == d.order@[j] ==> i == j,
        DEDUP_CAP == 4096,
{
}

/// A selection is what its vector holds.
pub proof fn law_a_selection_as_a_value(s: Selection)
    ensures
        s@ == chosen(s),
{
}

} // verus!
