//! The registered name groups that the scheduler keys on.
//!
//! A name's slot comes from the longest registered prefix that covers it. Each
//! entry also keeps the prefix's Tier-0 mask, so a received frame is attributed
//! from its address octets, without parsing it.

use vstd::prelude::*;

use crate::name_gate;
use crate::tier0;
use crate::tier0::{PrefixFilter, SLASH};

verus! {

/// Which slots a group is placed in.
#[derive(Debug, Clone, Copy, PartialEq, Eq, Structural)]
pub enum LeaseClass {
    /// The open slots.
    Bulk,
    /// The reserved lanes.
    Latency,
}

/// A registered group, as a value.
pub struct Group {
    /// The prefix, in `/`-joined form.
    pub prefix: Seq<u8>,
    /// The prefix's Tier-0 mask.
    pub mask: Set<int>,
    /// The slot key.
    pub hash: u64,
    /// The lease class.
    pub class: LeaseClass,
}

/// A registered group.
pub struct GroupEntry {
    /// The prefix, in `/`-joined form.
    pub prefix: Vec<u8>,
    /// The prefix's Tier-0 mask.
    pub mask: PrefixFilter,
    /// The slot key.
    pub hash: u64,
    /// The lease class. It rides the registration set, which nodes share: all of
    /// them must class a prefix alike or their slot maps diverge.
    pub class: LeaseClass,
}

impl View for GroupEntry {
    type V = Group;

    open spec fn view(&self) -> Group {
        Group { prefix: self.prefix@, mask: self.mask@, hash: self.hash, class: self.class }
    }
}

/// The registered groups, longest prefix first.
pub struct GroupTable {
    /// The entries, in the order in which they are tried.
    pub entries: Vec<GroupEntry>,
}

impl View for GroupTable {
    type V = Seq<Group>;

    open spec fn view(&self) -> Seq<Group> {
        self.entries@.map_values(|e: GroupEntry| e@)
    }
}

/// The components of a `/`-joined prefix; empty ones do not count.
pub open spec fn components(prefix: Seq<u8>) -> Seq<Seq<u8>>
    decreases prefix.len(),
{
    if prefix.len() == 0 {
        Seq::empty()
    } else {
        let done = components(prefix.drop_last());
        if prefix.last() == SLASH {
            done
        } else if prefix.len() == 1 || prefix[prefix.len() - 2] == SLASH {
            done.push(seq![prefix.last()])
        } else {
            done.drop_last().push(done.last().push(prefix.last()))
        }
    }
}

/// A prefix that does not end in a slash ends in a component.
proof fn lemma_open_component(prefix: Seq<u8>)
    requires
        prefix.len() > 0,
        prefix.last() != SLASH,
    ensures
        components(prefix).len() > 0,
    decreases prefix.len(),
{
}

/// Cuts a `/`-joined prefix into the components that its slot key is taken over.
pub fn prefix_components(prefix: &[u8]) -> (out: Vec<Vec<u8>>)
    ensures
        out@.map_values(|c: Vec<u8>| c@) == components(prefix@),
{
    let mut out: Vec<Vec<u8>> = Vec::new();
    let ghost view = |c: Vec<u8>| c@;
    let mut i: usize = 0;
    assert(out@.map_values(view) =~= components(prefix@.take(0)));
    while i < prefix.len()
        invariant
            i <= prefix.len(),
            view == (|c: Vec<u8>| c@),
            out@.map_values(view) == components(prefix@.take(i as int)),
        decreases prefix.len() - i,
    {
        let b: u8 = prefix[i];
        let ghost done = out@.map_values(view);
        let ghost grown = prefix@.take(i as int + 1);
        proof {
            assert(grown.drop_last() =~= prefix@.take(i as int));
            assert(grown.last() == b);
        }
        if b != SLASH {
            if i == 0 || prefix[i - 1] == SLASH {
                let mut c: Vec<u8> = Vec::new();
                c.push(b);
                assert(c@ =~= seq![b]);
                out.push(c);
                assert(out@.map_values(view) =~= done.push(c@));
            } else {
                proof {
                    lemma_open_component(prefix@.take(i as int));
                    assert(done.len() == out@.len());
                }
                let open: Option<Vec<u8>> = out.pop();
                if let Some(mut c) = open {
                    assert(c@ == done.last());
                    c.push(b);
                    out.push(c);
                    assert(out@.map_values(view) =~= done.drop_last().push(done.last().push(b)));
                }
            }
        }
        i = i + 1;
    }
    assert(prefix@.take(i as int) =~= prefix@);
    out
}

/// The registered prefixes as groups, in the order given. All start as bulk.
pub open spec fn registered(key: Seq<u8>, prefixes: Seq<Vec<u8>>, hashes: Seq<u64>) -> Seq<Group> {
    Seq::new(
        prefixes.len(),
        |i: int|
            Group {
                prefix: prefixes[i]@,
                mask: tier0::mask_bits(key, prefixes[i]@),
                hash: hashes[i],
                class: LeaseClass::Bulk,
            },
    )
}

/// `list` with `g` put behind the last group whose prefix is not shorter.
pub open spec fn placed(list: Seq<Group>, g: Group) -> Seq<Group>
    decreases list.len(),
{
    if list.len() == 0 || list.last().prefix.len() >= g.prefix.len() {
        list.push(g)
    } else {
        placed(list.drop_last(), g).push(list.last())
    }
}

/// The groups by falling prefix length; those of one length keep their order.
pub open spec fn arranged(list: Seq<Group>) -> Seq<Group>
    decreases list.len(),
{
    if list.len() == 0 {
        Seq::empty()
    } else {
        placed(arranged(list.drop_last()), list.last())
    }
}

/// Where `placed` puts the group.
proof fn lemma_placed_at(list: Seq<Group>, g: Group, k: int)
    requires
        0 <= k <= list.len(),
        k > 0 ==> list[k - 1].prefix.len() >= g.prefix.len(),
        forall|j: int| k <= j < list.len() ==> (#[trigger] list[j]).prefix.len() < g.prefix.len(),
    ensures
        placed(list, g) == list.insert(k, g),
    decreases list.len(),
{
    if k == list.len() {
        if list.len() > 0 {
            assert(list.last() == list[k - 1]);
        }
        assert(list.push(g) =~= list.insert(k, g));
    } else {
        assert(list.last() == list[list.len() - 1]);
        assert forall|j: int| k <= j < list.drop_last().len() implies (
        #[trigger] list.drop_last()[j]).prefix.len() < g.prefix.len() by {
            assert(list.drop_last()[j] == list[j]);
        }
        lemma_placed_at(list.drop_last(), g, k);
        assert(list.drop_last().insert(k, g).push(list.last()) =~= list.insert(k, g));
    }
}

/// No group stands before one with a longer prefix.
pub open spec fn longest_first(t: Seq<Group>) -> bool {
    forall|i: int, j: int|
        0 <= i <= j < t.len() ==> (#[trigger] t[i]).prefix.len() >= (#[trigger] t[j]).prefix.len()
}

proof fn lemma_placed_keeps_order(list: Seq<Group>, g: Group)
    requires
        longest_first(list),
    ensures
        longest_first(placed(list, g)),
        placed(list, g).to_multiset() == list.to_multiset().insert(g),
        placed(list, g).len() == list.len() + 1,
        placed(list, g).len() > 0,
        placed(list, g).last() == g || list.len() > 0 && placed(list, g).last() == list.last(),
    decreases list.len(),
{
    broadcast use vstd::seq_lib::group_to_multiset_ensures;

    if list.len() == 0 || list.last().prefix.len() >= g.prefix.len() {
        assert forall|i: int, j: int| 0 <= i <= j < list.push(g).len() implies (
        #[trigger] list.push(g)[i]).prefix.len() >= (#[trigger] list.push(g)[j]).prefix.len() by {
            if i < list.len() {
                assert(list[i].prefix.len() >= list[list.len() - 1].prefix.len());
            }
        }
    } else {
        let head = list.drop_last();
        assert(longest_first(head)) by {
            assert forall|i: int, j: int| 0 <= i <= j < head.len() implies (
            #[trigger] head[i]).prefix.len() >= (#[trigger] head[j]).prefix.len() by {
                assert(list[i].prefix.len() >= list[j].prefix.len());
            }
        }
        lemma_placed_keeps_order(head, g);
        let p = placed(head, g);
        let q = p.push(list.last());
        assert(q.to_multiset() =~= list.to_multiset().insert(g)) by {
            assert(list =~= head.push(list.last()));
            assert(list.to_multiset() == head.to_multiset().insert(list.last()));
        }
        assert(p.last().prefix.len() >= list.last().prefix.len()) by {
            if head.len() > 0 {
                assert(list[head.len() - 1].prefix.len() >= list[list.len() - 1].prefix.len());
                assert(head.last() == list[head.len() - 1]);
            }
        }
        assert forall|i: int, j: int| 0 <= i <= j < q.len() implies (
        #[trigger] q[i]).prefix.len() >= (#[trigger] q[j]).prefix.len() by {
            if j < p.len() {
                assert(p[i].prefix.len() >= p[j].prefix.len());
            } else if i < p.len() {
                assert(p[i].prefix.len() >= p[p.len() - 1].prefix.len());
            }
        }
    }
}

/// The arrangement keeps every group and stands longest first.
pub proof fn lemma_arranged(list: Seq<Group>)
    ensures
        longest_first(arranged(list)),
        arranged(list).to_multiset() == list.to_multiset(),
        arranged(list).len() == list.len(),
    decreases list.len(),
{
    broadcast use vstd::seq_lib::group_to_multiset_ensures;

    if list.len() == 0 {
        assert(arranged(list) =~= list);
    } else {
        lemma_arranged(list.drop_last());
        lemma_placed_keeps_order(arranged(list.drop_last()), list.last());
        assert(list =~= list.drop_last().push(list.last()));
        assert(arranged(list).to_multiset() =~= list.to_multiset());
    }
}

/// Every group has the mask of its prefix under `key`.
pub open spec fn masked_by(t: Seq<Group>, key: Seq<u8>) -> bool {
    forall|j: int|
        0 <= j < t.len() ==> (#[trigger] t[j]).mask == tier0::mask_bits(key, t[j].prefix)
}

proof fn lemma_arranged_masks(key: Seq<u8>, prefixes: Seq<Vec<u8>>, hashes: Seq<u64>)
    ensures
        masked_by(arranged(registered(key, prefixes, hashes)), key),
{
    broadcast use vstd::seq_lib::group_to_multiset_ensures;

    let list = registered(key, prefixes, hashes);
    let t = arranged(list);
    lemma_arranged(list);
    assert forall|j: int| 0 <= j < t.len() implies (#[trigger] t[j]).mask == tier0::mask_bits(
        key,
        t[j].prefix,
    ) by {
        assert(t.contains(t[j]));
        assert(t.to_multiset().count(t[j]) > 0);
        assert(list.to_multiset().count(t[j]) > 0);
        assert(list.contains(t[j]));
    }
}

/// `name` lies under `prefix`: the prefix is the root, which covers every name, or
/// an initial part of the name that ends where a component ends. `/a` covers `/a`
/// and `/a/b`, never `/ab`.
pub open spec fn covers(prefix: Seq<u8>, name: Seq<u8>) -> bool {
    ||| prefix == tier0::root()
    ||| prefix.len() <= name.len() && name.take(prefix.len() as int) == prefix && (name.len()
        == prefix.len() || name[prefix.len() as int] == SLASH)
}

/// Slot key and class from the first group, counted from `from`, that covers the
/// name.
pub open spec fn key_for_name(t: Seq<Group>, name: Seq<u8>, from: int) -> Option<(u64, LeaseClass)>
    decreases t.len() - from,
{
    if from < 0 || from >= t.len() {
        None
    } else if covers(t[from].prefix, name) {
        Some((t[from].hash, t[from].class))
    } else {
        key_for_name(t, name, from + 1)
    }
}

/// Slot key and class from the first group, counted from `from`, whose mask the
/// frame's filter could be under.
pub open spec fn key_for_filter(t: Seq<Group>, frame: Set<int>, from: int) -> Option<
    (u64, LeaseClass),
>
    decreases t.len() - from,
{
    if from < 0 || from >= t.len() {
        None
    } else if tier0::accepts(frame, t[from].mask) {
        Some((t[from].hash, t[from].class))
    } else {
        key_for_filter(t, frame, from + 1)
    }
}

/// The groups with the part of each mask that rides in the first two addresses of a
/// frame: what is left to test where the third was not captured.
pub open spec fn narrowed(t: Seq<Group>) -> Seq<Group> {
    t.map_values(|g: Group| Group { mask: name_gate::testable(g.mask, false), ..g })
}

/// The groups with what can be tested of their masks.
pub open spec fn tested(t: Seq<Group>, third_known: bool) -> Seq<Group> {
    if third_known {
        t
    } else {
        narrowed(t)
    }
}

/// Does `prefix` cover `name` at a component boundary?
pub fn prefix_covers(prefix: &[u8], name: &[u8]) -> (r: bool)
    ensures
        r == covers(prefix@, name@),
{
    if prefix.len() == 1 && prefix[0] == SLASH {
        assert(prefix@ =~= tier0::root());
        return true;
    }
    assert(prefix@ != tier0::root()) by {
        if prefix@ == tier0::root() {
            assert(prefix@[0] == SLASH);
        }
    }
    if prefix.len() > name.len() {
        return false;
    }
    let mut i: usize = 0;
    while i < prefix.len()
        invariant
            i <= prefix.len() <= name.len(),
            prefix@ != tier0::root(),
            forall|j: int| 0 <= j < i ==> prefix@[j] == name@[j],
        decreases prefix.len() - i,
    {
        if prefix[i] != name[i] {
            assert(name@.take(prefix@.len() as int)[i as int] != prefix@[i as int]);
            return false;
        }
        i = i + 1;
    }
    assert(name@.take(prefix@.len() as int) =~= prefix@);
    name.len() == prefix.len() || name[prefix.len()] == SLASH
}

/// Are the two byte strings the same?
pub(crate) fn same_bytes(a: &[u8], b: &[u8]) -> (r: bool)
    ensures
        r == (a@ == b@),
{
    if a.len() != b.len() {
        return false;
    }
    let mut i: usize = 0;
    while i < a.len()
        invariant
            i <= a.len(),
            a.len() == b.len(),
            forall|j: int| 0 <= j < i ==> a@[j] == b@[j],
        decreases a.len() - i,
    {
        if a[i] != b[i] {
            return false;
        }
        i = i + 1;
    }
    assert(a@ =~= b@);
    true
}

/// One of the prefixes is `p`.
pub open spec fn lists(prefixes: Seq<Vec<u8>>, p: Seq<u8>) -> bool {
    exists|i: int| 0 <= i < prefixes.len() && (#[trigger] prefixes[i])@ == p
}

/// The groups with those that `prefixes` lists moved to the latency class.
pub open spec fn reclassed(t: Seq<Group>, prefixes: Seq<Vec<u8>>) -> Seq<Group> {
    t.map_values(
        |g: Group|
            if lists(prefixes, g.prefix) {
                Group { class: LeaseClass::Latency, ..g }
            } else {
                g
            },
    )
}

impl GroupTable {
    /// Registers the prefixes. `hashes` holds the slot key of each, taken over its
    /// components.
    pub fn new(key: &[u8; 16], prefixes: &Vec<Vec<u8>>, hashes: &Vec<u64>) -> (t: Self)
        requires
            prefixes.len() == hashes.len(),
        ensures
            t@ == arranged(registered(key@, prefixes@, hashes@)),
            longest_first(t@),
            masked_by(t@, key@),
    {
        let mut entries: Vec<GroupEntry> = Vec::new();
        let ghost view = |e: GroupEntry| e@;
        let ghost all = registered(key@, prefixes@, hashes@);
        let mut i: usize = 0;
        assert(entries@.map_values(view) =~= arranged(all.take(0)));
        while i < prefixes.len()
            invariant
                i <= prefixes.len(),
                prefixes.len() == hashes.len(),
                view == (|e: GroupEntry| e@),
                all == registered(key@, prefixes@, hashes@),
                entries@.map_values(view) == arranged(all.take(i as int)),
            decreases prefixes.len() - i,
        {
            let prefix: Vec<u8> = vstd::slice::slice_to_vec(prefixes[i].as_slice());
            let e = GroupEntry {
                mask: PrefixFilter::mask_for(key, prefix.as_slice()),
                hash: hashes[i],
                prefix,
                class: LeaseClass::Bulk,
            };
            let ghost before = entries@.map_values(view);
            let mut k: usize = entries.len();
            while k > 0 && entries[k - 1].prefix.len() < e.prefix.len()
                invariant
                    k <= entries.len(),
                    view == (|e: GroupEntry| e@),
                    before == entries@.map_values(view),
                    forall|j: int|
                        k <= j < before.len() ==> (#[trigger] before[j]).prefix.len()
                            < e@.prefix.len(),
                decreases k,
            {
                assert(before[k - 1] == entries@[k - 1]@);
                k = k - 1;
            }
            proof {
                if k > 0 {
                    assert(before[k - 1] == entries@[k - 1]@);
                }
                lemma_placed_at(before, e@, k as int);
                assert(all.take(i as int + 1).drop_last() =~= all.take(i as int));
                assert(all.take(i as int + 1).last() == e@);
            }
            entries.insert(k, e);
            assert(entries@.map_values(view) =~= before.insert(k as int, e@));
            i = i + 1;
        }
        proof {
            assert(all.take(i as int) =~= all);
            lemma_arranged(all);
            assert(arranged(all) == entries@.map_values(view));
            lemma_arranged_masks(key@, prefixes@, hashes@);
        }
        GroupTable { entries }
    }

    /// Moves the groups with one of these prefixes to the latency class. The
    /// others keep theirs.
    pub fn with_latency(self, prefixes: &Vec<Vec<u8>>) -> (t: Self)
        ensures
            t@ == reclassed(self@, prefixes@),
            longest_first(self@) ==> longest_first(t@),
            forall|key: Seq<u8>| #[trigger] masked_by(self@, key) ==> masked_by(t@, key),
    {
        let mut entries: Vec<GroupEntry> = self.entries;
        let ghost before = entries@;
        let mut i: usize = 0;
        while i < entries.len()
            invariant
                i <= entries.len(),
                entries.len() == before.len(),
                forall|j: int|
                    0 <= j < i ==> (#[trigger] entries@[j])@ == (if lists(
                        prefixes@,
                        before[j]@.prefix,
                    ) {
                        Group { class: LeaseClass::Latency, ..before[j]@ }
                    } else {
                        before[j]@
                    }),
                forall|j: int| i <= j < before.len() ==> entries@[j] == before[j],
            decreases entries.len() - i,
        {
            let mut hit: bool = false;
            let mut n: usize = 0;
            while n < prefixes.len() && !hit
                invariant
                    n <= prefixes.len(),
                    i < entries.len(),
                    hit ==> lists(prefixes@, entries@[i as int].prefix@),
                    !hit ==> forall|j: int|
                        0 <= j < n ==> (#[trigger] prefixes@[j])@ != entries@[i as int].prefix@,
                decreases prefixes.len() - n + (if hit { 0int } else { 1int }),
            {
                if same_bytes(prefixes[n].as_slice(), entries[i].prefix.as_slice()) {
                    assert(prefixes@[n as int]@ == entries@[i as int].prefix@);
                    hit = true;
                } else {
                    n = n + 1;
                }
            }
            if hit {
                entries[i].class = LeaseClass::Latency;
            }
            i = i + 1;
        }
        let t = GroupTable { entries };
        proof {
            assert(t@ =~= reclassed(self@, prefixes@));
            assert forall|j: int| 0 <= j < t@.len() implies (#[trigger] t@[j]).prefix
                == self@[j].prefix && t@[j].mask == self@[j].mask by {}
        }
        t
    }

    /// Slot key and class for a name in `/`-joined form: those of the longest
    /// registered prefix that covers it.
    pub fn hash_for_name(&self, slash: &[u8]) -> (r: Option<(u64, LeaseClass)>)
        ensures
            r == key_for_name(self@, slash@, 0),
    {
        let mut i: usize = 0;
        while i < self.entries.len()
            invariant
                i <= self.entries.len(),
                key_for_name(self@, slash@, 0) == key_for_name(self@, slash@, i as int),
            decreases self.entries.len() - i,
        {
            assert(self@[i as int] == self.entries@[i as int]@);
            if prefix_covers(self.entries[i].prefix.as_slice(), slash) {
                return Some((self.entries[i].hash, self.entries[i].class));
            }
            i = i + 1;
        }
        None
    }

    /// Slot key and class for a received filter: those of the first, so longest,
    /// registered mask that it could be under.
    pub fn hash_for_filter(&self, f: &PrefixFilter) -> (r: Option<(u64, LeaseClass)>)
        ensures
            r == key_for_filter(self@, f@, 0),
    {
        let mut i: usize = 0;
        while i < self.entries.len()
            invariant
                i <= self.entries.len(),
                key_for_filter(self@, f@, 0) == key_for_filter(self@, f@, i as int),
            decreases self.entries.len() - i,
        {
            assert(self@[i as int] == self.entries@[i as int]@);
            if f.may_match(&self.entries[i].mask) {
                return Some((self.entries[i].hash, self.entries[i].class));
            }
            i = i + 1;
        }
        None
    }

    /// Slot key and class for the part of a filter that rides in the first two
    /// addresses: those of the first, so longest, registered mask whose part in them
    /// it could be under. Bits that were not captured are not held against it.
    pub fn hash_for_partial(&self, f: &PrefixFilter) -> (r: Option<(u64, LeaseClass)>)
        ensures
            r == key_for_filter(narrowed(self@), f@, 0),
    {
        let mut i: usize = 0;
        while i < self.entries.len()
            invariant
                i <= self.entries.len(),
                key_for_filter(narrowed(self@), f@, 0) == key_for_filter(
                    narrowed(self@),
                    f@,
                    i as int,
                ),
            decreases self.entries.len() - i,
        {
            let m: PrefixFilter = name_gate::without_third(&self.entries[i].mask);
            assert(narrowed(self@)[i as int].mask == m@);
            if f.may_match(&m) {
                return Some((self.entries[i].hash, self.entries[i].class));
            }
            i = i + 1;
        }
        None
    }

    /// How many groups are registered.
    pub fn len(&self) -> (n: usize)
        ensures
            n == self@.len(),
    {
        self.entries.len()
    }
}

// ---------------------------------------------------------------------------
// Laws
// ---------------------------------------------------------------------------

/// Where the search for a name ends.
proof fn lemma_first_covering(t: Seq<Group>, name: Seq<u8>, from: int, i: int) -> (k: int)
    requires
        0 <= from <= i < t.len(),
        covers(t[i].prefix, name),
    ensures
        from <= k <= i,
        covers(t[k].prefix, name),
        key_for_name(t, name, from) == Some((t[k].hash, t[k].class)),
        forall|j: int| from <= j < k ==> !covers((#[trigger] t[j]).prefix, name),
    decreases t.len() - from,
{
    if covers(t[from].prefix, name) {
        from
    } else {
        lemma_first_covering(t, name, from + 1, i)
    }
}

/// A name that some registered prefix covers is keyed by the longest of them.
pub proof fn law_longest_prefix_wins(list: Seq<Group>, name: Seq<u8>, covering: Group)
    requires
        list.contains(covering),
        covers(covering.prefix, name),
    ensures
        exists|g: Group| #[trigger]
            list.contains(g) && covers(g.prefix, name) && key_for_name(arranged(list), name, 0)
                == Some((g.hash, g.class)) && (forall|h: Group| #[trigger]
                list.contains(h) && covers(h.prefix, name) ==> h.prefix.len() <= g.prefix.len()),
{
    broadcast use vstd::seq_lib::group_to_multiset_ensures;

    lemma_arranged(list);
    let t = arranged(list);
    assert forall|h: Group| list.contains(h) == #[trigger] t.contains(h) by {
        assert(list.to_multiset().count(h) == t.to_multiset().count(h));
    }
    assert(t.contains(covering));
    let i = choose|i: int| 0 <= i < t.len() && t[i] == covering;
    let k = lemma_first_covering(t, name, 0, i);
    assert(t.contains(t[k]));
    assert(list.contains(t[k]));
    assert forall|h: Group| #[trigger]
        list.contains(h) && covers(h.prefix, name) implies h.prefix.len() <= t[k].prefix.len() by {
        assert(t.contains(h));
        let m = choose|m: int| 0 <= m < t.len() && t[m] == h;
        if m < k {
            assert(!covers(t[m].prefix, name));
        }
    }
}

/// A name that no registered prefix covers has no key from the table.
pub proof fn law_unregistered_name_has_no_key(t: Seq<Group>, name: Seq<u8>, from: int)
    requires
        forall|i: int| 0 <= i < t.len() ==> !covers((#[trigger] t[i]).prefix, name),
    ensures
        key_for_name(t, name, from) is None,
    decreases t.len() - from,
{
    if 0 <= from < t.len() {
        law_unregistered_name_has_no_key(t, name, from + 1);
    }
}

proof fn lemma_first_accepting(t: Seq<Group>, frame: Set<int>, from: int, i: int) -> (k: int)
    requires
        0 <= from <= i < t.len(),
        tier0::accepts(frame, t[i].mask),
    ensures
        from <= k <= i,
        tier0::accepts(frame, t[k].mask),
        key_for_filter(t, frame, from) == Some((t[k].hash, t[k].class)),
        forall|j: int| from <= j < k ==> !tier0::accepts(frame, (#[trigger] t[j]).mask),
    decreases t.len() - from,
{
    if tier0::accepts(frame, t[from].mask) {
        from
    } else {
        lemma_first_accepting(t, frame, from + 1, i)
    }
}

/// A prefix covers exactly the names that lie under it, where it has a byte.
pub proof fn lemma_covering_is_lying_under(prefix: Seq<u8>, name: Seq<u8>)
    requires
        prefix.len() > 0,
    ensures
        covers(prefix, name) == tier0::is_under(name, prefix),
{
    if covers(prefix, name) && prefix != tier0::root() {
        if name.len() == prefix.len() {
            assert(name.take(prefix.len() as int) =~= name);
        } else {
            assert(name[prefix.len() as int] == SLASH);
        }
    }
    if tier0::is_under(name, prefix) && prefix != tier0::root() {
        if prefix == name {
            assert(name.take(prefix.len() as int) =~= name);
        } else {
            let j = choose|j: int|
                0 < j < name.len() && #[trigger] name[j] == SLASH && prefix == name.take(j);
            assert(prefix.len() == j);
        }
    }
}

/// The sender's key and the receiver's agree. Where a name lies under a registered
/// prefix, the sender keys it by a registered group, and a receiver with the same
/// table attributes the name's filter to one: the same, unless the filter also falls
/// under the mask of a group that does not cover the name.
pub proof fn law_sender_and_receiver_agree(t: Seq<Group>, key: Seq<u8>, name: Seq<u8>, i: int)
    requires
        longest_first(t),
        masked_by(t, key),
        0 <= i < t.len(),
        tier0::is_under(name, t[i].prefix),
    ensures
        key_for_name(t, name, 0) is Some,
        key_for_filter(t, tier0::name_bits(key, name), 0) is Some,
        (forall|j: int|
            0 <= j < t.len() && tier0::accepts(
                tier0::name_bits(key, name),
                (#[trigger] t[j]).mask,
            ) ==> covers(t[j].prefix, name)) ==> key_for_filter(t, tier0::name_bits(key, name), 0)
            == key_for_name(t, name, 0),
{
    let frame = tier0::name_bits(key, name);
    lemma_covering_is_lying_under(t[i].prefix, name);
    let k = lemma_first_covering(t, name, 0, i);
    assert(t[k].prefix.len() >= t[i].prefix.len());
    lemma_covering_is_lying_under(t[k].prefix, name);
    tier0::law_no_false_negative(key, name, t[k].prefix);
    let m = lemma_first_accepting(t, frame, 0, k);
    if m < k {
        assert(!covers(t[m].prefix, name));
    }
}

/// A receiver that did not capture the third address misses no registered group:
/// where a name lies under a registered prefix, the part of the name's filter that
/// was captured is attributed to some registered group. It is the group that the
/// sender keys the name by, unless that part also falls under the mask of a group
/// that does not cover the name.
pub proof fn law_missing_address_only_loosens(t: Seq<Group>, key: Seq<u8>, name: Seq<u8>, i: int)
    requires
        longest_first(t),
        masked_by(t, key),
        0 <= i < t.len(),
        tier0::is_under(name, t[i].prefix),
    ensures
        ({
            let part = name_gate::testable(tier0::name_bits(key, name), false);
            &&& key_for_filter(narrowed(t), part, 0) is Some
            &&& (forall|j: int|
                0 <= j < t.len() && tier0::accepts(part, (#[trigger] narrowed(t)[j]).mask)
                    ==> covers(t[j].prefix, name)) ==> key_for_filter(narrowed(t), part, 0)
                == key_for_name(t, name, 0)
        }),
{
    let part = name_gate::testable(tier0::name_bits(key, name), false);
    lemma_covering_is_lying_under(t[i].prefix, name);
    let k = lemma_first_covering(t, name, 0, i);
    assert(t[k].prefix.len() >= t[i].prefix.len());
    lemma_covering_is_lying_under(t[k].prefix, name);
    tier0::law_no_false_negative(key, name, t[k].prefix);
    tier0::law_one_name_stays_under_the_cap(key, name);
    name_gate::lemma_testable_is_accepted(tier0::name_bits(key, name), t[k].mask);
    assert(narrowed(t)[k].mask == name_gate::testable(t[k].mask, false));
    let m = lemma_first_accepting(narrowed(t), part, 0, k);
    if m < k {
        assert(!covers(t[m].prefix, name));
    }
}

/// A prefix covers itself and every name that goes on with a slash behind it, and no
/// other name; the root covers every name.
pub proof fn law_a_prefix_covers_whole_components(prefix: Seq<u8>, rest: Seq<u8>, name: Seq<u8>)
    ensures
        covers(seq![0x2fu8], name),
        prefix != seq![0x2fu8] ==> (covers(prefix, prefix + rest) <==> rest.len() == 0 || rest[0]
            == 0x2f),
        covers(prefix, name) && prefix != seq![0x2fu8] ==> prefix.len() <= name.len() && name
            == prefix + name.skip(prefix.len() as int),
{
    assert((prefix + rest).take(prefix.len() as int) =~= prefix);
    if covers(prefix, name) && prefix != tier0::root() {
        assert(name =~= prefix + name.skip(prefix.len() as int));
    }
}

/// The key of a name is that of the first group of the table that covers it, with that
/// group's class.
pub proof fn law_the_first_covering_group_keys_a_name(t: Seq<Group>, name: Seq<u8>, i: int)
    requires
        0 <= i < t.len(),
        covers(t[i].prefix, name),
        forall|j: int| 0 <= j < i ==> !covers((#[trigger] t[j]).prefix, name),
    ensures
        key_for_name(t, name, 0) == Some((t[i].hash, t[i].class)),
{
    let k = lemma_first_covering(t, name, 0, i);
}

/// The key of a frame's filter is that of the first group of the table whose mask it
/// has all bits of, unless it is filled beyond the cap.
pub proof fn law_the_first_fitting_mask_keys_a_filter(t: Seq<Group>, frame: Set<int>, i: int)
    requires
        0 <= i < t.len(),
        frame.len() <= 64,
        t[i].mask.subset_of(frame),
        forall|j: int| 0 <= j < i ==> !(#[trigger] t[j]).mask.subset_of(frame),
    ensures
        key_for_filter(t, frame, 0) == Some((t[i].hash, t[i].class)),
{
    let k = lemma_first_accepting(t, frame, 0, i);
}

/// A filter that lacks a bit of every mask, or is filled beyond the cap, has no key from
/// the table.
pub proof fn law_a_foreign_filter_has_no_key(t: Seq<Group>, frame: Set<int>, from: int)
    requires
        0 <= from,
        frame.len() > 64 || forall|j: int|
            from <= j < t.len() ==> !(#[trigger] t[j]).mask.subset_of(frame),
    ensures
        key_for_filter(t, frame, from) is None,
    decreases t.len() - from,
{
    if from < t.len() {
        law_a_foreign_filter_has_no_key(t, frame, from + 1);
    }
}

/// A registered group has the prefix and the slot key that it was given, its prefix's
/// mask, and is bulk until it is told otherwise.
pub proof fn law_registration_keeps_prefix_and_key(
    key: Seq<u8>,
    prefixes: Seq<Vec<u8>>,
    hashes: Seq<u64>,
    i: int,
)
    requires
        0 <= i < prefixes.len() == hashes.len(),
    ensures
        ({
            let list = registered(key, prefixes, hashes);
            &&& list.len() == prefixes.len()
            &&& list[i].prefix == prefixes[i]@
            &&& list[i].hash == hashes[i]
            &&& list[i].mask == tier0::mask_bits(key, prefixes[i]@)
            &&& list[i].class == LeaseClass::Bulk
            &&& arranged(list).contains(list[i])
            &&& arranged(list).len() == list.len()
        }),
{
    broadcast use vstd::seq_lib::group_to_multiset_ensures;

    let list = registered(key, prefixes, hashes);
    lemma_arranged(list);
    assert(list.contains(list[i]));
    assert(list.to_multiset().count(list[i]) > 0);
    assert(arranged(list).to_multiset().count(list[i]) > 0);
}

/// Of groups whose prefixes are as long, the one registered first stands first.
pub proof fn law_arranging_is_stable(list: Seq<Group>, n: nat)
    ensures
        arranged(list).filter(|g: Group| g.prefix.len() == n) == list.filter(
            |g: Group| g.prefix.len() == n,
        ),
    decreases list.len(),
{
    let p = |g: Group| g.prefix.len() == n;
    reveal(Seq::filter);
    if list.len() > 0 {
        law_arranging_is_stable(list.drop_last(), n);
        lemma_arranged(list.drop_last());
        lemma_placing_is_stable(arranged(list.drop_last()), list.last(), n);
    }
}

proof fn lemma_placing_is_stable(list: Seq<Group>, g: Group, n: nat)
    requires
        longest_first(list),
    ensures
        ({
            let p = |g: Group| g.prefix.len() == n;
            placed(list, g).filter(p) == (if p(g) {
                list.filter(p).push(g)
            } else {
                list.filter(p)
            })
        }),
    decreases list.len(),
{
    let p = |g: Group| g.prefix.len() == n;
    reveal(Seq::filter);
    if list.len() == 0 || list.last().prefix.len() >= g.prefix.len() {
        assert(list.push(g).drop_last() =~= list);
    } else {
        let head = list.drop_last();
        assert(longest_first(head)) by {
            assert forall|i: int, j: int| 0 <= i <= j < head.len() implies (
            #[trigger] head[i]).prefix.len() >= (#[trigger] head[j]).prefix.len() by {
                assert(list[i].prefix.len() >= list[j].prefix.len());
            }
        }
        lemma_placing_is_stable(head, g, n);
        let q = placed(head, g).push(list.last());
        assert(q.drop_last() =~= placed(head, g));
        if p(list.last()) {
            assert(!p(g));
        }
    }
}

/// Only the class of the listed prefixes changes, and to latency; everything else of
/// every group stays.
pub proof fn law_only_listed_prefixes_become_urgent(t: Seq<Group>, prefixes: Seq<Vec<u8>>, i: int)
    requires
        0 <= i < t.len(),
    ensures
        ({
            let r = reclassed(t, prefixes);
            &&& r.len() == t.len()
            &&& r[i].prefix == t[i].prefix && r[i].mask == t[i].mask && r[i].hash == t[i].hash
            &&& (exists|j: int| 0 <= j < prefixes.len() && (#[trigger] prefixes[j])@ == t[i].prefix)
                ==> r[i].class == LeaseClass::Latency
            &&& (forall|j: int|
                0 <= j < prefixes.len() ==> (#[trigger] prefixes[j])@ != t[i].prefix) ==> r[i].class
                == t[i].class
        }),
{
}

/// Where the third address is missing, a mask loses exactly its bits from the
/// ninety-fourth on, and a group nothing else.
pub proof fn law_a_missing_address_narrows_the_masks(t: Seq<Group>, i: int, p: int)
    requires
        0 <= i < t.len(),
    ensures
        tested(t, true) == t,
        ({
            let r = tested(t, false);
            &&& r.len() == t.len()
            &&& r[i].prefix == t[i].prefix && r[i].hash == t[i].hash && r[i].class == t[i].class
            &&& r[i].mask.contains(p) <==> t[i].mask.contains(p) && p < 94
        }),
{
}

/// A slashless part is one component, and a slash parts: what stands before it and what
/// stands behind it are cut on their own. An empty part is no component.
pub proof fn law_slashes_part_components(a: Seq<u8>, b: Seq<u8>, whole: Seq<u8>)
    requires
        forall|i: int| 0 <= i < whole.len() ==> #[trigger] whole[i] != 0x2f,
    ensures
        components(a + seq![0x2fu8] + b) == components(a) + components(b),
        components(whole) == (if whole.len() == 0 {
            Seq::empty()
        } else {
            seq![whole]
        }),
{
    lemma_parted_components(a, b);
    lemma_whole_component(whole);
}

proof fn lemma_parted_components(a: Seq<u8>, b: Seq<u8>)
    ensures
        components(a + seq![SLASH] + b) == components(a) + components(b),
    decreases b.len(),
{
    let all = a + seq![SLASH] + b;
    if b.len() == 0 {
        assert(all.drop_last() =~= a);
        assert(components(all) =~= components(a) + components(b));
    } else {
        let shorter = b.drop_last();
        lemma_parted_components(a, shorter);
        assert(all.drop_last() =~= a + seq![SLASH] + shorter);
        assert(all.last() == b.last());
        let done = components(a) + components(shorter);
        if b.last() != SLASH {
            if b.len() == 1 {
                assert(all[all.len() - 2] == SLASH);
                assert(components(all) =~= components(a) + components(b));
            } else {
                assert(all[all.len() - 2] == b[b.len() - 2]);
                if b[b.len() - 2] == SLASH {
                    assert(components(all) =~= components(a) + components(b));
                } else {
                    lemma_open_component(shorter);
                    assert(done.drop_last() =~= components(a) + components(shorter).drop_last());
                    assert(done.last() == components(shorter).last());
                    assert(components(all) =~= components(a) + components(b));
                }
            }
        }
    }
}

proof fn lemma_whole_component(s: Seq<u8>)
    requires
        forall|i: int| 0 <= i < s.len() ==> #[trigger] s[i] != SLASH,
    ensures
        components(s) == (if s.len() == 0 {
            Seq::empty()
        } else {
            seq![s]
        }),
    decreases s.len(),
{
    if s.len() > 0 {
        let head = s.drop_last();
        assert forall|i: int| 0 <= i < head.len() implies #[trigger] head[i] != SLASH by {
            assert(head[i] == s[i]);
        }
        lemma_whole_component(head);
        assert(s.last() == s[s.len() - 1]);
        if s.len() == 1 {
            assert(components(head) =~= Seq::<Seq<u8>>::empty());
            assert(components(s) =~= seq![s]) by {
                assert(seq![s.last()] =~= s);
            }
        } else {
            assert(s[s.len() - 2] != SLASH);
            assert(head.push(s.last()) =~= s);
            assert(components(s) =~= seq![s]);
        }
    }
}

/// A registered group as a value has the entry's prefix, mask, key and class, and a table
/// is its entries in order.
pub proof fn law_a_table_as_a_value(t: GroupTable, i: int)
    requires
        0 <= i < t.entries@.len(),
    ensures
        t@.len() == t.entries@.len(),
        t@[i].prefix == t.entries@[i].prefix@,
        t@[i].mask == t.entries@[i].mask@,
        t@[i].hash == t.entries@[i].hash,
        t@[i].class == t.entries@[i].class,
{
}

/// A table stands longest prefix first, and its masks are those of its prefixes.
pub proof fn law_the_form_of_a_table_of_groups(t: Seq<Group>, key: Seq<u8>, i: int, j: int)
    requires
        0 <= i <= j < t.len(),
    ensures
        longest_first(t) ==> t[i].prefix.len() >= t[j].prefix.len(),
        masked_by(t, key) ==> t[i].mask == tier0::mask_bits(key, t[i].prefix),
{
}

} // verus!
