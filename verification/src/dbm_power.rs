//! Absolute transmit power, in dBm: which mechanism drives a radio's power, what a
//! request becomes, and what the tools that report power say.

use vstd::prelude::*;

use crate::text;
use crate::text::{
    chars_of, find_last, find_pattern, parse_floor, parse_i8, parse_unsigned, trim, word, Rounded,
};

verus! {

/// A range of powers, in dBm.
#[derive(Debug, Clone, Copy, PartialEq, Eq, Structural)]
pub struct DbmRange {
    /// The lowest.
    pub min: i8,
    /// The highest.
    pub max: i8,
}

impl DbmRange {
    /// The power in the range that is nearest to `v`.
    pub open spec fn nearest(self, v: i8) -> i8 {
        if v < self.min {
            self.min
        } else if v > self.max {
            self.max
        } else {
            v
        }
    }

    /// A range.
    pub fn new(min: i8, max: i8) -> (r: Self)
        ensures
            r == (DbmRange { min, max }),
    {
        DbmRange { min, max }
    }

    /// The power in the range that is nearest to a request.
    pub fn clamp(self, v: i8) -> (r: i8)
        ensures
            r == self.nearest(v),
    {
        if v < self.min {
            self.min
        } else if v > self.max {
            self.max
        } else {
            v
        }
    }

    /// How many dB the range spans.
    pub fn span_db(self) -> (n: u8)
        requires
            self.min <= self.max,
        ensures
            n == self.max - self.min,
    {
        (self.max as i16 - self.min as i16) as u8
    }
}

/// A driver's own power knob: a file that takes a decimal number of dBm.
#[derive(Debug, Clone, Copy)]
pub struct KnobSpec {
    /// The radio that it belongs to.
    pub driver: &'static str,
    /// The file's name.
    pub file: &'static str,
    /// What the knob accepts.
    pub range: DbmRange,
}

/// How many driver knobs are known.
pub const DRIVER_KNOBS: usize = 2;

/// A known driver knob.
pub fn driver_knob(i: usize) -> (k: KnobSpec)
    requires
        i < DRIVER_KNOBS,
    ensures
        k.range == (DbmRange { min: 1, max: 30 }),
        i == 0 ==> k.driver@ == "Morse Micro MM6108"@ && k.file@ == "tx_power_dbm"@,
        i == 1 ==> k.driver@ == "Newracom NRC7292"@ && k.file@ == "nrc_txpower"@,
{
    if i == 0 {
        KnobSpec {
            driver: "Morse Micro MM6108",
            file: "tx_power_dbm",
            range: DbmRange { min: 1, max: 30 },
        }
    } else {
        KnobSpec {
            driver: "Newracom NRC7292",
            file: "nrc_txpower",
            range: DbmRange { min: 1, max: 30 },
        }
    }
}

/// Where a power request goes.
#[derive(Debug, Clone, Copy, PartialEq, Eq, Structural)]
pub enum Mechanism {
    /// To a driver's own knob.
    Knob(usize),
    /// To the kernel's wireless interface.
    Nl80211,
    /// Nowhere.
    Absent,
}

/// The absolute-power control that was found for a radio.
#[derive(Debug, Clone, Copy, PartialEq, Eq, Structural)]
pub struct Mac80211Knobs {
    /// Where requests go.
    pub mechanism: Mechanism,
    /// The powers that can be asked for, where any can.
    pub range: Option<DbmRange>,
}

/// A power request to carry out.
#[derive(Debug, Clone, Copy, PartialEq, Eq, Structural)]
pub enum PowerWrite {
    /// Write so many dBm to a driver's knob.
    Knob(usize, i8),
    /// Ask the kernel for so many hundredths of a dBm.
    Nl80211(i8, i32),
}

impl Mac80211Knobs {
    /// There is a range exactly where requests go somewhere, and a knob is a known
    /// one.
    pub open spec fn wf(&self) -> bool {
        &&& self.mechanism is Absent <==> self.range is None
        &&& self.mechanism matches Mechanism::Knob(i) ==> i < DRIVER_KNOBS
    }

    /// Takes what probing found: a driver's knob goes before the kernel's wireless
    /// interface, which counts only where it names a ceiling. Without either there
    /// is no range to claim.
    pub fn discover(knob: Option<usize>, ceiling: Option<i8>) -> (m: Self)
        requires
            knob matches Some(i) ==> i < DRIVER_KNOBS,
        ensures
            m.wf(),
            m == (match knob {
                Some(i) => Mac80211Knobs {
                    mechanism: Mechanism::Knob(i),
                    range: Some(DbmRange { min: 1, max: 30 }),
                },
                None => match ceiling {
                    Some(max) => Mac80211Knobs {
                        mechanism: Mechanism::Nl80211,
                        range: Some(DbmRange { min: 0, max }),
                    },
                    None => Mac80211Knobs { mechanism: Mechanism::Absent, range: None },
                },
            }),
    {
        match knob {
            Some(i) => Mac80211Knobs {
                mechanism: Mechanism::Knob(i),
                range: Some(driver_knob(i).range),
            },
            None => match ceiling {
                Some(max) => Mac80211Knobs {
                    mechanism: Mechanism::Nl80211,
                    range: Some(DbmRange::new(0, max)),
                },
                None => Mac80211Knobs { mechanism: Mechanism::Absent, range: None },
            },
        }
    }

    /// The powers that can be asked for.
    pub fn tx_power_range(&self) -> (r: Option<DbmRange>)
        ensures
            r == self.range,
    {
        self.range
    }

    /// What drives the power.
    pub fn mechanism_name(&self) -> (n: &'static str)
        requires
            self.wf(),
        ensures
            match self.mechanism {
                Mechanism::Knob(i) => if i == 0 {
                    n@ == "Morse Micro MM6108"@
                } else {
                    n@ == "Newracom NRC7292"@
                },
                Mechanism::Nl80211 => n@ == "nl80211"@,
                Mechanism::Absent => n@ == "none"@,
            },
    {
        match self.mechanism {
            Mechanism::Knob(i) => driver_knob(i).driver,
            Mechanism::Nl80211 => "nl80211",
            Mechanism::Absent => "none",
        }
    }

    /// What a request becomes: a write of the nearest power in the range, or none
    /// where the radio has no absolute control.
    pub fn set_tx_power_dbm(&self, dbm: i8) -> (w: Option<PowerWrite>)
        requires
            self.wf(),
        ensures
            w == (match (self.mechanism, self.range) {
                (Mechanism::Knob(i), Some(r)) => Some(PowerWrite::Knob(i, r.nearest(dbm))),
                (Mechanism::Nl80211, Some(r)) => Some(
                    PowerWrite::Nl80211(r.nearest(dbm), (r.nearest(dbm) * 100) as i32),
                ),
                _ => None,
            }),
    {
        let want: i8 = match self.range {
            Some(r) => r.clamp(dbm),
            None => dbm,
        };
        match self.mechanism {
            Mechanism::Knob(i) => Some(PowerWrite::Knob(i, want)),
            Mechanism::Nl80211 => Some(PowerWrite::Nl80211(want, want as i32 * 100)),
            Mechanism::Absent => None,
        }
    }
}

/// The power that stands after a write: what the radio reports, else what was
/// written.
pub fn applied_dbm(reported: Option<i8>, written: i8) -> (dbm: i8)
    ensures
        dbm == (match reported {
            Some(r) => r,
            None => written,
        }),
{
    match reported {
        Some(r) => r,
        None => written,
    }
}

/// Does the radio have to be retuned? It does not where it reports the channel.
pub fn needs_retune(current: Option<u8>, channel: u8) -> (r: bool)
    ensures
        r == (current != Some(channel)),
{
    match current {
        Some(c) => c != channel,
        None => true,
    }
}

// ---------------------------------------------------------------------------
// What the tools say
// ---------------------------------------------------------------------------

/// How far a number goes from the start of a text: over digits, and over a sign
/// that stands first.
pub open spec fn number_end(s: Seq<char>, from: int) -> int
    decreases s.len() - from,
{
    if from < 0 || from >= s.len() {
        s.len() as int
    } else if text::is_digit(s[from]) || from == 0 && (s[from] == '-' || s[from] == '+') {
        number_end(s, from + 1)
    } else {
        from
    }
}

/// The whole number that a text starts with.
pub open spec fn leading_number(s: Seq<char>) -> Option<int> {
    let t = text::trimmed(s);
    text::signed(t.take(number_end(t, 0)), -128, 127)
}

/// Reads the whole number that a text starts with.
pub fn parse_leading_i8(s: &str) -> (r: Option<i8>)
    ensures
        match leading_number(s@) {
            Some(v) => r is Some && r->0 == v,
            None => r is None,
        },
{
    let chars: Vec<char> = chars_of(s);
    let t: &[char] = trim(chars.as_slice());
    let mut end: usize = 0;
    while end < t.len() && (('0' <= t[end] && t[end] <= '9') || (end == 0 && (t[end] == '-'
        || t[end] == '+')))
        invariant
            end <= t.len(),
            number_end(t@, 0) == number_end(t@, end as int),
        decreases t.len() - end,
    {
        end = end + 1;
    }
    let lead: &[char] = vstd::slice::slice_subrange(t, 0, end);
    assert(lead@ =~= t@.take(number_end(t@, 0)));
    parse_i8(lead)
}

/// What stands behind a power limit.
pub const DBM_MARK: [char; 4] = ['d', 'B', 'm', ')'];

/// What stands before an interface's power.
pub const TXPOWER_MARK: [char; 7] = ['t', 'x', 'p', 'o', 'w', 'e', 'r'];

/// What stands before an interface's channel.
pub const CHANNEL_MARK: [char; 7] = ['c', 'h', 'a', 'n', 'n', 'e', 'l'];

/// The larger of the largest limit so far and another one, either of which may be
/// missing. What is no number is neither larger nor smaller than anything, so the
/// one that came first stays.
pub open spec fn larger(best: Option<Rounded>, next: Option<Rounded>) -> Option<Rounded> {
    match (best, next) {
        (None, _) => next,
        (Some(Rounded::Whole(b)), Some(Rounded::Whole(v))) => if v > b {
            next
        } else {
            best
        },
        _ => best,
    }
}

/// The limit whose mark stands at `at`: the number behind the last bracket that
/// opens before the mark, rounded down.
pub open spec fn limit_at(s: Seq<char>, at: int) -> Option<Rounded> {
    match text::last_at(s, '(', at) {
        Some(open) => text::floor_of(text::trimmed(s.subrange(open + 1, at))),
        None => None,
    }
}

/// The largest limit from `from` on, and no smaller than `best`.
pub open spec fn largest_limit(s: Seq<char>, from: int, best: Option<Rounded>) -> Option<Rounded>
    decreases s.len() + 1 - from,
    via largest_limit_terminates
{
    match text::pattern_at(s, DBM_MARK@, from) {
        Some(at) => largest_limit(s, at + 4, larger(best, limit_at(s, at))),
        None => best,
    }
}

#[via_fn]
proof fn largest_limit_terminates(s: Seq<char>, from: int, best: Option<Rounded>) {
    lemma_pattern_at(s, DBM_MARK@, from);
}

proof fn lemma_pattern_at(s: Seq<char>, pat: Seq<char>, from: int)
    ensures
        text::pattern_at(s, pat, from) matches Some(at) ==> 0 <= from <= at && at + pat.len()
            <= s.len(),
    decreases s.len() + 1 - from,
{
    if 0 <= from <= s.len() && !text::stands_at(s, pat, from) {
        lemma_pattern_at(s, pat, from + 1);
    }
}

/// Reads the largest power limit, in whole dBm, out of what the kernel reports of a
/// radio.
pub fn parse_iw_phy_max_dbm(text: &str) -> (r: Option<i8>)
    ensures
        r == (match largest_limit(text@, 0, None) {
            Some(v) => Some(text::octet_of(v)),
            None => None,
        }),
{
    let chars: Vec<char> = chars_of(text);
    let mark: [char; 4] = DBM_MARK;
    let s: &[char] = chars.as_slice();
    let mut best: Option<Rounded> = None;
    let mut from: usize = 0;
    while from <= s.len()
        invariant_except_break
            from <= s.len(),
            s@ == text@,
            mark@ == DBM_MARK@,
            largest_limit(s@, from as int, best) == largest_limit(s@, 0, None),
        ensures
            s@ == text@,
            best == largest_limit(s@, 0, None),
        decreases s.len() + 1 - from,
    {
        proof {
            lemma_pattern_at(s@, DBM_MARK@, from as int);
        }
        let at: usize = match find_pattern(s, mark.as_slice(), from) {
            None => {
                break;
            },
            Some(at) => at,
        };
        let next: Option<Rounded> = match find_last(s, '(', at) {
            Some(open) => parse_floor(trim(vstd::slice::slice_subrange(s, open + 1, at))),
            None => None,
        };
        best = match (best, next) {
            (None, _) => next,
            (Some(Rounded::Whole(b)), Some(Rounded::Whole(v))) => if v > b {
                next
            } else {
                best
            },
            _ => best,
        };
        from = at + 4;
    }
    match best {
        Some(v) => Some(v.octet()),
        None => None,
    }
}

/// The first word behind the first mark.
pub open spec fn word_behind(s: Seq<char>, mark: Seq<char>) -> Option<Seq<char>> {
    match text::pattern_at(s, mark, 0) {
        Some(at) => Some(text::first_word(s.skip(at + mark.len()))),
        None => None,
    }
}

/// Reads the power, in whole dBm, out of what the kernel reports of an interface.
pub fn parse_iw_txpower(text: &str) -> (r: Option<i8>)
    ensures
        r == (match word_behind(text@, TXPOWER_MARK@) {
            Some(w) => match text::floor_of(w) {
                Some(v) => Some(text::octet_of(v)),
                None => None,
            },
            None => None,
        }),
{
    let chars: Vec<char> = chars_of(text);
    let mark: [char; 7] = TXPOWER_MARK;
    let s: &[char] = chars.as_slice();
    match find_pattern(s, mark.as_slice(), 0) {
        None => None,
        Some(at) => {
            let end: usize = s.len();
            let rest: &[char] = vstd::slice::slice_subrange(s, at + 7, end);
            assert(rest@ =~= text@.skip(at as int + 7));
            match parse_floor(word(rest)) {
                Some(v) => Some(v.octet()),
                None => None,
            }
        },
    }
}

/// Reads the channel out of what the kernel reports of an interface.
pub fn parse_iw_channel(text: &str) -> (r: Option<u8>)
    ensures
        match word_behind(text@, CHANNEL_MARK@) {
            Some(w) => match text::unsigned(w, 255) {
                Some(v) => r is Some && r->0 == v,
                None => r is None,
            },
            None => r is None,
        },
{
    let chars: Vec<char> = chars_of(text);
    let mark: [char; 7] = CHANNEL_MARK;
    let s: &[char] = chars.as_slice();
    match find_pattern(s, mark.as_slice(), 0) {
        None => None,
        Some(at) => {
            let end: usize = s.len();
            let rest: &[char] = vstd::slice::slice_subrange(s, at + 7, end);
            assert(rest@ =~= text@.skip(at as int + 7));
            match parse_unsigned(word(rest), 255) {
                Some(v) => Some(v as u8),
                None => None,
            }
        },
    }
}

// ---------------------------------------------------------------------------
// Laws
// ---------------------------------------------------------------------------

/// A request is never written outside the range that the radio advertises.
pub proof fn law_requests_stay_in_range(r: DbmRange, v: i8)
    requires
        r.min <= r.max,
    ensures
        r.min <= r.nearest(v) <= r.max,
        r.min <= v <= r.max ==> r.nearest(v) == v,
{
}

/// Text that names no power limit makes no claim.
pub proof fn law_no_limit_no_claim(s: Seq<char>)
    requires
        forall|at: int| !text::stands_at(s, DBM_MARK@, at),
    ensures
        largest_limit(s, 0, None) is None,
{
    lemma_no_pattern(s, DBM_MARK@, 0);
}

/// What is claimed of a radio is its largest limit: one that the text names, and no
/// smaller than any other, wherever the limits are numbers.
pub proof fn law_the_largest_limit_is_claimed(s: Seq<char>, at: int, v: i8)
    requires
        text::stands_at(s, DBM_MARK@, at),
        limit_at(s, at) == Some(Rounded::Whole(v)),
        forall|i: int|
            #[trigger] text::stands_at(s, DBM_MARK@, i) ==> limit_at(s, i) != Some(
                Rounded::NotANumber,
            ),
    ensures
        largest_limit(s, 0, None) matches Some(Rounded::Whole(w)) && v <= w,
        exists|i: int| #[trigger]
            text::stands_at(s, DBM_MARK@, i) && limit_at(s, i) == largest_limit(s, 0, None),
{
    lemma_largest_limit(s, 0, None);
}

/// Where there is a number, there is another one that is no smaller.
spec fn covered(a: Option<Rounded>, b: Option<Rounded>) -> bool {
    a matches Some(Rounded::Whole(v)) ==> (b matches Some(Rounded::Whole(w)) && v <= w)
}

proof fn lemma_largest_limit(s: Seq<char>, from: int, best: Option<Rounded>)
    requires
        0 <= from,
        best != Some(Rounded::NotANumber),
        forall|i: int|
            #[trigger] text::stands_at(s, DBM_MARK@, i) ==> limit_at(s, i) != Some(
                Rounded::NotANumber,
            ),
    ensures
        largest_limit(s, from, best) != Some(Rounded::NotANumber),
        covered(best, largest_limit(s, from, best)),
        forall|i: int|
            from <= i && #[trigger] text::stands_at(s, DBM_MARK@, i) ==> covered(
                limit_at(s, i),
                largest_limit(s, from, best),
            ),
        largest_limit(s, from, best) == best || exists|i: int| #[trigger]
            text::stands_at(s, DBM_MARK@, i) && limit_at(s, i) == largest_limit(s, from, best),
    decreases s.len() + 1 - from,
{
    lemma_pattern_at(s, DBM_MARK@, from);
    lemma_first_pattern(s, DBM_MARK@, from);
    match text::pattern_at(s, DBM_MARK@, from) {
        Some(at) => {
            let next = larger(best, limit_at(s, at));
            lemma_largest_limit(s, at + 4, next);
            assert forall|i: int| at < i < at + 4 implies !text::stands_at(s, DBM_MARK@, i) by {
                assert(s.subrange(at, at + 4)[i - at] == s[i]);
                if text::stands_at(s, DBM_MARK@, i) {
                    assert(s.subrange(i, i + 4)[0] == s[i]);
                }
            }
        },
        None => {},
    }
}

/// A pattern is found where it first stands.
proof fn lemma_first_pattern(s: Seq<char>, pat: Seq<char>, from: int)
    requires
        0 <= from,
    ensures
        match text::pattern_at(s, pat, from) {
            Some(at) => text::stands_at(s, pat, at) && forall|i: int|
                from <= i < at ==> !text::stands_at(s, pat, i),
            None => forall|i: int| from <= i ==> !text::stands_at(s, pat, i),
        },
    decreases s.len() + 1 - from,
{
    if from <= s.len() && !text::stands_at(s, pat, from) {
        lemma_first_pattern(s, pat, from + 1);
    }
}

proof fn lemma_no_pattern(s: Seq<char>, pat: Seq<char>, from: int)
    requires
        forall|at: int| !text::stands_at(s, pat, at),
    ensures
        text::pattern_at(s, pat, from) is None,
    decreases s.len() + 1 - from,
{
    if 0 <= from <= s.len() {
        lemma_no_pattern(s, pat, from + 1);
    }
}

/// A request below the range becomes its lowest power, one above it its highest.
pub proof fn law_requests_go_to_the_nearest_end(r: DbmRange, v: i8)
    requires
        r.min <= r.max,
    ensures
        v <= r.min ==> r.nearest(v) == r.min,
        v >= r.max ==> r.nearest(v) == r.max,
{
}

/// There is a range exactly where requests go somewhere, and a knob is one of the known.
pub proof fn law_a_range_needs_a_mechanism(m: Mac80211Knobs)
    requires
        m.wf(),
    ensures
        m.range is Some <==> m.mechanism != Mechanism::Absent,
        m.mechanism matches Mechanism::Knob(i) ==> i == 0 || i == 1,
{
}

/// The number that a text starts with: a sign or none, digits as far as they go, and
/// whatever follows does not matter, nor white space around it all.
pub proof fn law_the_number_a_text_starts_with(
    a: Seq<char>,
    sign: Seq<char>,
    d: Seq<char>,
    rest: Seq<char>,
)
    requires
        text::trimmed(a) == sign + d + rest,
        sign.len() == 0 || sign == seq!['-'] || sign == seq!['+'],
        forall|i: int| 0 <= i < d.len() ==> text::is_digit(#[trigger] d[i]),
        rest.len() > 0 ==> !text::is_digit(rest[0]),
        sign.len() == 0 && d.len() == 0 && rest.len() > 0 ==> rest[0] != '-' && rest[0] != '+',
    ensures
        leading_number(a) == text::signed(sign + d, -128, 127),
{
    let t = sign + d + rest;
    let n = (sign.len() + d.len()) as int;
    assert forall|i: int| 0 <= i < n implies text::is_digit(#[trigger] t[i]) || i == 0 && (t[i] == '-'
        || t[i] == '+') by {
        if i < sign.len() {
            assert(t[i] == sign[i]);
        } else {
            assert(t[i] == d[i - sign.len()]);
        }
    }
    if n < t.len() {
        assert(t[n] == rest[0]);
    }
    lemma_number_end(t, 0, n);
    assert(t.take(n) =~= sign + d);
}

proof fn lemma_number_end(s: Seq<char>, from: int, n: int)
    requires
        0 <= from <= n <= s.len(),
        forall|i: int|
            from <= i < n ==> text::is_digit(#[trigger] s[i]) || i == 0 && (s[i] == '-' || s[i]
                == '+'),
        n < s.len() ==> !text::is_digit(s[n]) && (n == 0 ==> s[n] != '-' && s[n] != '+'),
    ensures
        number_end(s, from) == n,
    decreases n - from,
{
    if from < n {
        assert(text::is_digit(s[from]) || from == 0 && (s[from] == '-' || s[from] == '+'));
        lemma_number_end(s, from + 1, n);
    }
}

/// A limit is the number between the last bracket that opens before its mark and the
/// mark; without such a bracket there is none.
pub proof fn law_a_limit_stands_in_its_bracket(
    head: Seq<char>,
    inner: Seq<char>,
    rest: Seq<char>,
)
    requires
        forall|i: int| 0 <= i < inner.len() ==> #[trigger] inner[i] != '(',
    ensures
        limit_at(head + seq!['('] + inner + rest, (head.len() + 1 + inner.len()) as int)
            == text::floor_of(text::trimmed(inner)),
        limit_at(inner + rest, inner.len() as int) is None,
{
    let s = head + seq!['('] + inner + rest;
    let at = (head.len() + 1 + inner.len()) as int;
    assert forall|i: int| head.len() < i < at implies #[trigger] s[i] != '(' by {
        assert(s[i] == inner[i - head.len() - 1]);
    }
    text::law_a_character_is_found_where_it_last_stands(s, '(', at, head.len() as int);
    assert(s.subrange(head.len() as int + 1, at) =~= inner);
    let t = inner + rest;
    assert forall|i: int| 0 <= i < inner.len() implies #[trigger] t[i] != '(' by {
        assert(t[i] == inner[i]);
    }
    text::law_a_character_is_found_where_it_last_stands(t, '(', inner.len() as int, 0);
}

/// What is no number never gives way and never pushes in; of two numbers the larger
/// stays.
pub proof fn law_the_larger_limit_stays(a: i8, b: i8, v: Option<Rounded>)
    ensures
        larger(None, v) == v,
        larger(v, None) == v,
        larger(Some(Rounded::NotANumber), v) == Some(Rounded::NotANumber),
        larger(Some(Rounded::Whole(a)), Some(Rounded::NotANumber)) == Some(Rounded::Whole(a)),
        larger(Some(Rounded::Whole(a)), Some(Rounded::Whole(b))) == Some(
            Rounded::Whole(
                if a < b {
                    b
                } else {
                    a
                },
            ),
        ),
{
}

/// A mark is looked for from the start of the text, and the word behind it is read from
/// right behind the mark.
pub proof fn law_the_word_behind_a_mark(head: Seq<char>, mark: Seq<char>, tail: Seq<char>)
    requires
        forall|i: int| 0 <= i < head.len() ==> !text::stands_at(head + mark + tail, mark, i),
    ensures
        word_behind(head + mark + tail, mark) == Some(text::first_word(tail)),
{
    let s = head + mark + tail;
    let at = head.len() as int;
    assert(s.subrange(at, at + mark.len()) =~= mark);
    assert(text::stands_at(s, mark, at));
    text::law_a_pattern_is_found_where_it_first_stands(s, mark, 0, at);
    assert(s.skip(at + mark.len()) =~= tail);
}

/// Without its mark a text says nothing.
pub proof fn law_no_mark_no_word(s: Seq<char>, mark: Seq<char>)
    requires
        forall|i: int| !text::stands_at(s, mark, i),
    ensures
        word_behind(s, mark) is None,
{
    lemma_no_pattern(s, mark, 0);
}

/// The marks that are looked for.
pub proof fn law_the_marks()
    ensures
        DBM_MARK@ == seq!['d', 'B', 'm', ')'],
        TXPOWER_MARK@ == seq!['t', 'x', 'p', 'o', 'w', 'e', 'r'],
        CHANNEL_MARK@ == seq!['c', 'h', 'a', 'n', 'n', 'e', 'l'],
{
    assert(DBM_MARK@ =~= seq!['d', 'B', 'm', ')']);
    assert(TXPOWER_MARK@ =~= seq!['t', 'x', 'p', 'o', 'w', 'e', 'r']);
    assert(CHANNEL_MARK@ =~= seq!['c', 'h', 'a', 'n', 'n', 'e', 'l']);
}

/// Whatever the range, a request within it stands, one below its lowest power becomes
/// that, and any other one above its highest becomes that.
pub proof fn law_a_request_in_any_range(r: DbmRange, v: i8)
    ensures
        v < r.min ==> r.nearest(v) == r.min,
        v >= r.min && v > r.max ==> r.nearest(v) == r.max,
        r.min <= v <= r.max ==> r.nearest(v) == v,
{
}

} // verus!
