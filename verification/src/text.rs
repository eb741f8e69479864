//! Reading numbers and lists out of text.

use vstd::prelude::*;

verus! {

/// The characters of a string.
pub fn chars_of(s: &str) -> (out: Vec<char>)
    ensures
        out@ == s@,
{
    let mut out: Vec<char> = Vec::new();
    for c in it: s.chars()
        invariant
            it.seq() == s@,
            out@ == it.seq().take(it.index() as int),
    {
        out.push(c);
        assert(out@ =~= it.seq().take(it.index() as int + 1));
    }
    assert(s@.take(s@.len() as int) =~= s@);
    out
}

/// The characters that count as white space.
pub open spec fn is_space(c: char) -> bool {
    let v = c as u32;
    ||| 0x09 <= v <= 0x0d
    ||| v == 0x20
    ||| v == 0x85
    ||| v == 0xa0
    ||| v == 0x1680
    ||| 0x2000 <= v <= 0x200a
    ||| v == 0x2028
    ||| v == 0x2029
    ||| v == 0x202f
    ||| v == 0x205f
    ||| v == 0x3000
}

/// The text without the white space at its start.
pub open spec fn trimmed_start(s: Seq<char>) -> Seq<char>
    decreases s.len(),
{
    if s.len() > 0 && is_space(s[0]) {
        trimmed_start(s.skip(1))
    } else {
        s
    }
}

/// The text without the white space at its end.
pub open spec fn trimmed_end(s: Seq<char>) -> Seq<char>
    decreases s.len(),
{
    if s.len() > 0 && is_space(s.last()) {
        trimmed_end(s.drop_last())
    } else {
        s
    }
}

/// The text without the white space around it.
pub open spec fn trimmed(s: Seq<char>) -> Seq<char> {
    trimmed_end(trimmed_start(s))
}

/// Is this white space?
pub fn space(c: char) -> (r: bool)
    ensures
        r == is_space(c),
{
    let v: u32 = c as u32;
    (0x09 <= v && v <= 0x0d) || v == 0x20 || v == 0x85 || v == 0xa0 || v == 0x1680 || (0x2000 <= v
        && v <= 0x200a) || v == 0x2028 || v == 0x2029 || v == 0x202f || v == 0x205f || v == 0x3000
}

/// Where a part of a text begins and ends without the white space around it.
pub fn trim_bounds(s: &[char], from: usize, to: usize) -> (r: (usize, usize))
    requires
        from <= to <= s.len(),
    ensures
        from <= r.0 <= r.1 <= to,
        s@.subrange(r.0 as int, r.1 as int) == trimmed(s@.subrange(from as int, to as int)),
{
    let mut start: usize = from;
    let ghost part = s@.subrange(from as int, to as int);
    assert(s@.subrange(start as int, to as int) =~= part);
    while start < to && space(s[start])
        invariant
            from <= start <= to <= s.len(),
            trimmed_start(s@.subrange(start as int, to as int)) == trimmed_start(part),
        decreases to - start,
    {
        assert(s@.subrange(start as int, to as int).skip(1) =~= s@.subrange(
            start as int + 1,
            to as int,
        ));
        start = start + 1;
    }
    let ghost front = s@.subrange(start as int, to as int);
    assert(trimmed_start(part) == front) by {
        if start < to {
            assert(front[0] == s@[start as int]);
        }
    }
    let mut end: usize = to;
    while end > start && space(s[end - 1])
        invariant
            from <= start <= end <= to <= s.len(),
            trimmed_end(s@.subrange(start as int, end as int)) == trimmed_end(front),
        decreases end,
    {
        assert(s@.subrange(start as int, end as int).drop_last() =~= s@.subrange(
            start as int,
            end - 1,
        ));
        end = end - 1;
    }
    (start, end)
}

/// Takes away the white space around a text.
pub fn trim(s: &[char]) -> (t: &[char])
    ensures
        t@ == trimmed(s@),
{
    let (start, end): (usize, usize) = trim_bounds(s, 0, s.len());
    assert(s@.subrange(0, s@.len() as int) =~= s@);
    vstd::slice::slice_subrange(s, start, end)
}

/// A part of a text as a text of its own.
pub fn text_part(s: &str, from: usize, to: usize) -> (r: String)
    requires
        from <= to <= s@.len(),
    ensures
        r@ == s@.subrange(from as int, to as int),
{
    String::from_str(s.substring_char(from, to))
}

/// A decimal digit.
pub open spec fn is_digit(c: char) -> bool {
    '0' <= c <= '9'
}

/// At least one digit, and nothing else.
pub open spec fn all_digits(s: Seq<char>) -> bool {
    s.len() > 0 && forall|i: int| 0 <= i < s.len() ==> is_digit(#[trigger] s[i])
}

/// The number that digits spell.
pub open spec fn decimal(s: Seq<char>) -> nat
    decreases s.len(),
{
    if s.len() == 0 {
        0
    } else {
        10 * decimal(s.drop_last()) + (s.last() as u32 - '0' as u32) as nat
    }
}

/// The number that a text spells, with or without a plus sign before it, where it
/// is no larger than `max`.
pub open spec fn unsigned(s: Seq<char>, max: int) -> Option<int> {
    let d = if s.len() > 0 && s[0] == '+' { s.skip(1) } else { s };
    if all_digits(d) && decimal(d) <= max {
        Some(decimal(d) as int)
    } else {
        None
    }
}

/// A longer number is no smaller.
proof fn lemma_decimal_grows(s: Seq<char>, n: int)
    requires
        all_digits(s),
        0 <= n <= s.len(),
    ensures
        decimal(s.take(n)) <= decimal(s),
    decreases s.len() - n,
{
    if n < s.len() {
        lemma_decimal_grows(s, n + 1);
        assert(s.take(n + 1).drop_last() =~= s.take(n));
        assert(is_digit(s[n]));
    } else {
        assert(s.take(n) =~= s);
    }
}

/// Reads digits, and nothing else, as a number no larger than `max`.
pub fn parse_digits(s: &[char], max: u64) -> (r: Option<u64>)
    ensures
        match r {
            Some(v) => all_digits(s@) && v == decimal(s@) && v <= max,
            None => !(all_digits(s@) && decimal(s@) <= max),
        },
{
    if s.len() == 0 {
        return None;
    }
    let mut v: u64 = 0;
    let mut i: usize = 0;
    assert(decimal(s@.take(0)) == 0);
    while i < s.len()
        invariant
            i <= s.len(),
            s.len() > 0,
            v == decimal(s@.take(i as int)),
            v <= max,
            forall|j: int| 0 <= j < i ==> is_digit(#[trigger] s@[j]),
        decreases s.len() - i,
    {
        let c: char = s[i];
        if !('0' <= c && c <= '9') {
            assert(!is_digit(s@[i as int]));
            return None;
        }
        let digit: u64 = (c as u32 - '0' as u32) as u64;
        proof {
            assert(s@.take(i as int + 1).drop_last() =~= s@.take(i as int));
        }
        if v > u64::MAX / 10 || v * 10 > u64::MAX - digit || v * 10 + digit > max {
            proof {
                if all_digits(s@) {
                    lemma_decimal_grows(s@, i as int + 1);
                }
            }
            return None;
        }
        v = v * 10 + digit;
        i = i + 1;
    }
    assert(s@.take(i as int) =~= s@);
    Some(v)
}

/// Reads a number no larger than `max`.
pub fn parse_unsigned(s: &[char], max: u64) -> (r: Option<u64>)
    ensures
        match unsigned(s@, max as int) {
            Some(v) => r is Some && r->0 == v,
            None => r is None,
        },
{
    if s.len() > 0 && s[0] == '+' {
        let rest: &[char] = vstd::slice::slice_subrange(s, 1, s.len());
        assert(rest@ =~= s@.skip(1));
        parse_digits(rest, max)
    } else {
        parse_digits(s, max)
    }
}

/// Where `c` first stands in the text, counted from `from`; the length where it
/// does not.
pub open spec fn first_at(s: Seq<char>, c: char, from: int) -> int
    decreases s.len() - from,
{
    if from < 0 || from >= s.len() {
        s.len() as int
    } else if s[from] == c {
        from
    } else {
        first_at(s, c, from + 1)
    }
}

proof fn lemma_first_at(s: Seq<char>, c: char, from: int)
    requires
        0 <= from <= s.len(),
    ensures
        from <= first_at(s, c, from) <= s.len(),
        first_at(s, c, from) < s.len() ==> s[first_at(s, c, from)] == c,
        forall|i: int| from <= i < first_at(s, c, from) ==> #[trigger] s[i] != c,
    decreases s.len() - from,
{
    if from < s.len() && s[from] != c {
        lemma_first_at(s, c, from + 1);
    }
}

/// Looking behind the start of a text is looking at the rest of it.
pub proof fn lemma_first_at_in_rest(s: Seq<char>, c: char, start: int, from: int)
    requires
        0 <= start <= from <= s.len(),
    ensures
        first_at(s, c, from) == start + first_at(s.skip(start), c, from - start),
    decreases s.len() - from,
{
    if from < s.len() {
        assert(s.skip(start)[from - start] == s[from]);
        if s[from] != c {
            lemma_first_at_in_rest(s, c, start, from + 1);
        }
    }
}

/// Where does `c` first stand, counted from `from`?
pub fn find_char(s: &[char], c: char, from: usize) -> (at: usize)
    requires
        from <= s.len(),
    ensures
        at == first_at(s@, c, from as int),
        from <= at <= s.len(),
        at < s.len() ==> s@[at as int] == c,
{
    let mut i: usize = from;
    while i < s.len()
        invariant
            from <= i <= s.len(),
            first_at(s@, c, from as int) == first_at(s@, c, i as int),
        decreases s.len() - i,
    {
        if s[i] == c {
            return i;
        }
        i = i + 1;
    }
    i
}

/// The text up to the first `c` and the text behind it, where there is one.
pub open spec fn parted(s: Seq<char>, c: char) -> Option<(Seq<char>, Seq<char>)> {
    let at = first_at(s, c, 0);
    if at < s.len() {
        Some((s.take(at), s.skip(at + 1)))
    } else {
        None
    }
}

/// The pieces of a text between the separators. A text without a
/// separator is one piece.
pub open spec fn pieces(s: Seq<char>, c: char) -> Seq<Seq<char>>
    decreases s.len(),
    via pieces_terminate
{
    match parted(s, c) {
        Some((head, tail)) => seq![head] + pieces(tail, c),
        None => seq![s],
    }
}

#[via_fn]
proof fn pieces_terminate(s: Seq<char>, c: char) {
    lemma_first_at(s, c, 0);
}

/// Does the text hold `c`, and where does it part there?
pub fn split_once(s: &[char], c: char) -> (r: Option<(&[char], &[char])>)
    ensures
        match parted(s@, c) {
            Some((head, tail)) => r matches Some((h, t)) && h@ == head && t@ == tail,
            None => r is None,
        },
{
    let at: usize = find_char(s, c, 0);
    if at < s.len() {
        let head: &[char] = vstd::slice::slice_subrange(s, 0, at);
        let tail: &[char] = vstd::slice::slice_subrange(s, at + 1, s.len());
        assert(head@ =~= s@.take(at as int));
        assert(tail@ =~= s@.skip(at as int + 1));
        Some((head, tail))
    } else {
        None
    }
}

/// The numbers among the pieces, each with the white space around it taken away.
/// Pieces that are no number up to `max` are passed over.
pub open spec fn numbers_in(list: Seq<Seq<char>>, max: int) -> Seq<int>
    decreases list.len(),
{
    if list.len() == 0 {
        Seq::empty()
    } else {
        match unsigned(trimmed(list[0]), max) {
            Some(v) => seq![v] + numbers_in(list.skip(1), max),
            None => numbers_in(list.skip(1), max),
        }
    }
}

/// The small numbers in a list with this separator.
pub fn parse_octet_list(s: &[char], c: char) -> (out: Vec<u8>)
    ensures
        out@.map_values(|v: u8| v as int) == numbers_in(pieces(s@, c), 255),
{
    let mut out: Vec<u8> = Vec::new();
    let ghost number = |v: u8| v as int;
    let ghost want = numbers_in(pieces(s@, c), 255);
    let mut rest: &[char] = s;
    let mut more: bool = true;
    assert(out@.map_values(number) + want =~= want);
    while more
        invariant
            number == (|v: u8| v as int),
            more ==> out@.map_values(number) + numbers_in(pieces(rest@, c), 255) == want,
            !more ==> out@.map_values(number) == want,
        decreases rest@.len() + (if more { 1int } else { 0int }),
    {
        let ghost list = pieces(rest@, c);
        let ghost before = out@.map_values(number);
        proof {
            lemma_first_at(rest@, c, 0);
        }
        match split_once(rest, c) {
            Some((head, tail)) => {
                assert(list[0] == head@);
                assert(list.skip(1) =~= pieces(tail@, c));
                if let Some(v) = parse_unsigned(trim(head), 255) {
                    out.push(v as u8);
                    assert(out@.map_values(number) =~= before.push(v as int));
                }
                assert(out@.map_values(number) + numbers_in(pieces(tail@, c), 255) =~= before
                    + numbers_in(list, 255));
                rest = tail;
            },
            None => {
                assert(list[0] == rest@);
                assert(list.skip(1) =~= Seq::<Seq<char>>::empty());
                assert(numbers_in(list.skip(1), 255) =~= Seq::<int>::empty());
                if let Some(v) = parse_unsigned(trim(rest), 255) {
                    out.push(v as u8);
                    assert(out@.map_values(number) =~= before.push(v as int));
                }
                assert(out@.map_values(number) =~= before + numbers_in(list, 255));
                more = false;
            },
        }
    }
    out
}

/// Are the characters those of the literal?
pub fn same_text(s: &[char], lit: &str) -> (r: bool)
    ensures
        r == (s@ == lit@),
{
    let other: Vec<char> = chars_of(lit);
    if s.len() != other.len() {
        return false;
    }
    let mut i: usize = 0;
    while i < s.len()
        invariant
            i <= s.len(),
            s.len() == other.len(),
            other@ == lit@,
            forall|j: int| 0 <= j < i ==> s@[j] == other@[j],
        decreases s.len() - i,
    {
        if s[i] != other[i] {
            assert(s@[i as int] != lit@[i as int]);
            return false;
        }
        i = i + 1;
    }
    assert(s@ =~= lit@);
    true
}

/// Where white space first stands in the text, counted from `from`; the length
/// where it does not.
pub open spec fn first_space(s: Seq<char>, from: int) -> int
    decreases s.len() - from,
{
    if from < 0 || from >= s.len() {
        s.len() as int
    } else if is_space(s[from]) {
        from
    } else {
        first_space(s, from + 1)
    }
}

/// The first word of the text; empty where there is none.
pub open spec fn first_word(s: Seq<char>) -> Seq<char> {
    let t = trimmed_start(s);
    t.take(first_space(t, 0))
}

/// The first word of the text.
pub fn word(s: &[char]) -> (w: &[char])
    ensures
        w@ == first_word(s@),
{
    let mut start: usize = 0;
    assert(s@.skip(0) =~= s@);
    while start < s.len() && space(s[start])
        invariant
            start <= s.len(),
            trimmed_start(s@.skip(start as int)) == trimmed_start(s@),
        decreases s.len() - start,
    {
        assert(s@.skip(start as int).skip(1) =~= s@.skip(start as int + 1));
        start = start + 1;
    }
    let ghost t = s@.skip(start as int);
    assert(trimmed_start(s@) == t) by {
        if start < s.len() {
            assert(t[0] == s@[start as int]);
        }
    }
    let mut end: usize = start;
    while end < s.len() && !space(s[end])
        invariant
            start <= end <= s.len(),
            t == s@.skip(start as int),
            first_space(t, 0) == first_space(t, end - start),
        decreases s.len() - end,
    {
        assert(t[end - start] == s@[end as int]);
        end = end + 1;
    }
    assert(first_space(t, 0) == end - start) by {
        if end < s.len() {
            assert(t[end - start] == s@[end as int]);
        }
    }
    let w: &[char] = vstd::slice::slice_subrange(s, start, end);
    assert(w@ =~= t.take(end - start));
    w
}

/// The pattern stands in the text at `at`.
pub open spec fn stands_at(s: Seq<char>, pat: Seq<char>, at: int) -> bool {
    0 <= at && at + pat.len() <= s.len() && s.subrange(at, at + pat.len()) == pat
}

/// Where the pattern first stands in the text, counted from `from`.
pub open spec fn pattern_at(s: Seq<char>, pat: Seq<char>, from: int) -> Option<int>
    decreases s.len() + 1 - from,
{
    if from < 0 || from > s.len() {
        None
    } else if stands_at(s, pat, from) {
        Some(from)
    } else {
        pattern_at(s, pat, from + 1)
    }
}

/// Does the pattern stand in the text at `at`?
fn stands(s: &[char], pat: &[char], at: usize) -> (r: bool)
    requires
        at <= s.len(),
    ensures
        r == stands_at(s@, pat@, at as int),
{
    if pat.len() > s.len() - at {
        return false;
    }
    let mut i: usize = 0;
    while i < pat.len()
        invariant
            i <= pat.len() <= s.len() - at,
            at <= s.len(),
            forall|j: int| 0 <= j < i ==> pat@[j] == s@[at + j],
        decreases pat.len() - i,
    {
        if s[at + i] != pat[i] {
            assert(s@.subrange(at as int, at + pat@.len())[i as int] != pat@[i as int]);
            return false;
        }
        i = i + 1;
    }
    assert(s@.subrange(at as int, at + pat@.len()) =~= pat@);
    true
}

/// Where does the pattern first stand, counted from `from`?
pub fn find_pattern(s: &[char], pat: &[char], from: usize) -> (r: Option<usize>)
    requires
        from <= s.len(),
    ensures
        match pattern_at(s@, pat@, from as int) {
            Some(at) => r is Some && r->0 == at,
            None => r is None,
        },
        r is Some ==> from <= r->0 && r->0 + pat@.len() <= s@.len(),
{
    let mut i: usize = from;
    while i < s.len()
        invariant
            from <= i <= s.len(),
            pattern_at(s@, pat@, from as int) == pattern_at(s@, pat@, i as int),
        decreases s.len() - i,
    {
        if stands(s, pat, i) {
            return Some(i);
        }
        i = i + 1;
    }
    if stands(s, pat, i) {
        return Some(i);
    }
    assert(pattern_at(s@, pat@, i as int + 1) is None);
    None
}

/// Where `c` last stands among the first `n` characters, where it does.
pub open spec fn last_at(s: Seq<char>, c: char, n: int) -> Option<int>
    decreases n,
{
    if n <= 0 {
        None
    } else if s[n - 1] == c {
        Some(n - 1)
    } else {
        last_at(s, c, n - 1)
    }
}

/// Where does `c` last stand among the first `n` characters?
pub fn find_last(s: &[char], c: char, n: usize) -> (r: Option<usize>)
    requires
        n <= s.len(),
    ensures
        match last_at(s@, c, n as int) {
            Some(at) => r is Some && r->0 == at,
            None => r is None,
        },
        r is Some ==> r->0 < n,
{
    let mut i: usize = n;
    while i > 0
        invariant
            i <= n <= s.len(),
            last_at(s@, c, n as int) == last_at(s@, c, i as int),
        decreases i,
    {
        if s[i - 1] == c {
            return Some(i - 1);
        }
        i = i - 1;
    }
    None
}

/// The whole number that a text spells, with or without a sign before it.
pub open spec fn whole_number(s: Seq<char>) -> Option<int> {
    let d = unmarked(s);
    if all_digits(d) {
        Some(
            if negative(s) {
                -decimal(d)
            } else {
                decimal(d) as int
            },
        )
    } else {
        None
    }
}

/// Does a minus sign stand before the text?
pub open spec fn negative(s: Seq<char>) -> bool {
    s.len() > 0 && s[0] == '-'
}

/// The text behind the sign, where there is one.
pub open spec fn unmarked(s: Seq<char>) -> Seq<char> {
    if s.len() > 0 && (s[0] == '-' || s[0] == '+') {
        s.skip(1)
    } else {
        s
    }
}

/// The whole number that a text spells, with or without a sign before it, where it
/// lies between `min` and `max`.
pub open spec fn signed(s: Seq<char>, min: int, max: int) -> Option<int> {
    match whole_number(s) {
        Some(v) => if min <= v <= max {
            Some(v)
        } else {
            None
        },
        None => None,
    }
}

/// Reads a small whole number with or without a sign.
pub fn parse_i8(s: &[char]) -> (r: Option<i8>)
    ensures
        match signed(s@, -128, 127) {
            Some(v) => r is Some && r->0 == v,
            None => r is None,
        },
{
    if s.len() > 0 && (s[0] == '-' || s[0] == '+') {
        let minus: bool = s[0] == '-';
        let rest: &[char] = vstd::slice::slice_subrange(s, 1, s.len());
        assert(rest@ =~= s@.skip(1));
        if minus {
            match parse_digits(rest, 128) {
                Some(v) => Some((0 - v as i16) as i8),
                None => None,
            }
        } else {
            match parse_digits(rest, 127) {
                Some(v) => Some(v as i8),
                None => None,
            }
        }
    } else {
        match parse_digits(s, 127) {
            Some(v) => Some(v as i8),
            None => None,
        }
    }
}

/// Only zeros.
pub open spec fn all_zeros(s: Seq<char>) -> bool {
    forall|i: int| 0 <= i < s.len() ==> #[trigger] s[i] == '0'
}

/// Digits, or nothing.
pub open spec fn no_other_than_digits(s: Seq<char>) -> bool {
    forall|i: int| 0 <= i < s.len() ==> is_digit(#[trigger] s[i])
}

/// A number cut to the range of a signed octet.
pub open spec fn saturated(v: int) -> int {
    if v > 127 {
        127
    } else if v < -128 {
        -128
    } else {
        v
    }
}

/// What a number is when it is rounded down and cut to the range of a signed octet.
#[derive(Debug, Clone, Copy, PartialEq, Eq, Structural)]
pub enum Rounded {
    /// A whole number.
    Whole(i8),
    /// The text says that there is no number.
    NotANumber,
}

/// The octet that stands for a rounded number: 0 where there is no number.
pub open spec fn octet_of(r: Rounded) -> i8 {
    match r {
        Rounded::Whole(v) => v,
        Rounded::NotANumber => 0,
    }
}

impl Rounded {
    /// The octet that stands for it.
    pub fn octet(self) -> (v: i8)
        ensures
            v == octet_of(self),
    {
        match self {
            Rounded::Whole(v) => v,
            Rounded::NotANumber => 0,
        }
    }
}

/// The word for what is no number, in small and in large letters.
pub const NAN_SMALL: [char; 3] = ['n', 'a', 'n'];

/// See `NAN_SMALL`.
pub const NAN_LARGE: [char; 3] = ['N', 'A', 'N'];

/// The short word for what is beyond all numbers, in small and in large letters.
pub const INF_SMALL: [char; 3] = ['i', 'n', 'f'];

/// See `INF_SMALL`.
pub const INF_LARGE: [char; 3] = ['I', 'N', 'F'];

/// The long word for what is beyond all numbers, in small and in large letters.
pub const INFINITY_SMALL: [char; 8] = ['i', 'n', 'f', 'i', 'n', 'i', 't', 'y'];

/// See `INFINITY_SMALL`.
pub const INFINITY_LARGE: [char; 8] = ['I', 'N', 'F', 'I', 'N', 'I', 'T', 'Y'];

/// Does a text spell a word, each letter small or large?
pub open spec fn spells(s: Seq<char>, small: Seq<char>, large: Seq<char>) -> bool {
    s.len() == small.len() && forall|i: int|
        0 <= i < s.len() ==> (#[trigger] s[i] == small[i] || s[i] == large[i])
}

/// Does a text name what is no number?
pub open spec fn names_nan(s: Seq<char>) -> bool {
    spells(s, NAN_SMALL@, NAN_LARGE@)
}

/// Does a text name what is beyond all numbers?
pub open spec fn names_infinity(s: Seq<char>) -> bool {
    spells(s, INF_SMALL@, INF_LARGE@) || spells(s, INFINITY_SMALL@, INFINITY_LARGE@)
}

/// A power of ten.
pub open spec fn ten_to(k: nat) -> nat
    decreases k,
{
    if k == 0 {
        1
    } else {
        10 * ten_to((k - 1) as nat)
    }
}

/// A number times a power of ten, rounded down.
pub open spec fn scaled(v: int, shift: int) -> int {
    if shift >= 0 {
        v * ten_to(shift as nat)
    } else {
        v / (ten_to((-shift) as nat) as int)
    }
}

/// Where the exponent's mark stands in a number without a sign; the length where
/// there is none.
pub open spec fn exponent_mark(d: Seq<char>) -> int {
    let small = first_at(d, 'e', 0);
    let large = first_at(d, 'E', 0);
    if small < large {
        small
    } else {
        large
    }
}

/// The power of ten that a number without a sign is taken times.
pub open spec fn exponent_of(d: Seq<char>) -> Option<int> {
    if exponent_mark(d) < d.len() {
        whole_number(d.skip(exponent_mark(d) + 1))
    } else {
        Some(0)
    }
}

/// The digits of a decimal number without its point, and how many of them stood
/// behind it. Either side of the point may be missing, but not both.
pub open spec fn digits_of(m: Seq<char>) -> Option<(Seq<char>, int)> {
    let point = first_at(m, '.', 0);
    let fraction = if point < m.len() { m.skip(point + 1) } else { Seq::empty() };
    let digits = m.take(point) + fraction;
    if all_digits(digits) {
        Some((digits, fraction.len() as int))
    } else {
        None
    }
}

/// A number with or without a minus sign.
pub open spec fn with_sign(minus: bool, n: nat) -> int {
    if minus {
        -n
    } else {
        n as int
    }
}

/// The largest whole number that is no larger than what a text spells, cut to the
/// range of a signed octet. The text is a decimal number with or without a point and
/// an exponent, or one of the words for what is no number or beyond all numbers; a
/// sign may stand before it.
pub open spec fn floor_of(s: Seq<char>) -> Option<Rounded> {
    let d = unmarked(s);
    if names_nan(d) {
        Some(Rounded::NotANumber)
    } else if names_infinity(d) {
        Some(
            Rounded::Whole(
                if negative(s) {
                    i8::MIN
                } else {
                    i8::MAX
                },
            ),
        )
    } else {
        match (digits_of(d.take(exponent_mark(d))), exponent_of(d)) {
            (Some((digits, behind)), Some(exponent)) => Some(
                Rounded::Whole(
                    saturated(
                        scaled(with_sign(negative(s), decimal(digits)), exponent - behind),
                    ) as i8,
                ),
            ),
            _ => None,
        }
    }
}

/// A power of ten is no smaller than a lower one, nor than one.
proof fn lemma_ten_to(k: nat, m: nat)
    requires
        k <= m,
    ensures
        1 <= ten_to(k) <= ten_to(m),
    decreases m,
{
    if k < m {
        lemma_ten_to(k, (m - 1) as nat);
    } else if k > 0 {
        lemma_ten_to((k - 1) as nat, (k - 1) as nat);
    }
}

/// So many digits spell less than so large a power of ten.
proof fn lemma_decimal_below(s: Seq<char>)
    requires
        no_other_than_digits(s),
    ensures
        decimal(s) < ten_to(s.len()),
    decreases s.len(),
{
    if s.len() > 0 {
        lemma_decimal_below(s.drop_last());
        assert(is_digit(s.last()));
    }
}

/// Digits spell nothing exactly where they are all zeros.
proof fn lemma_decimal_zero(s: Seq<char>)
    requires
        no_other_than_digits(s),
    ensures
        all_zeros(s) <==> decimal(s) == 0,
    decreases s.len(),
{
    if s.len() > 0 {
        let init = s.drop_last();
        lemma_decimal_zero(init);
        assert(is_digit(s.last()));
        if all_zeros(s) {
            assert forall|i: int| 0 <= i < init.len() implies #[trigger] init[i] == '0' by {
                assert(s[i] == '0');
            }
            assert(s[s.len() - 1] == '0');
        }
        if decimal(s) == 0 {
            assert forall|i: int| 0 <= i < s.len() implies #[trigger] s[i] == '0' by {
                if i < init.len() {
                    assert(init[i] == '0');
                }
            }
        }
    }
}

/// Digits in two parts.
proof fn lemma_decimal_parts(s: Seq<char>, j: int)
    requires
        0 <= j <= s.len(),
        no_other_than_digits(s),
    ensures
        decimal(s) == decimal(s.take(j)) * ten_to((s.len() - j) as nat) + decimal(s.skip(j)),
    decreases s.len() - j,
{
    if j == s.len() {
        assert(s.take(j) =~= s);
        assert(s.skip(j) =~= Seq::<char>::empty());
        assert(decimal(s) * 1 == decimal(s)) by (nonlinear_arith);
    } else {
        let init = s.drop_last();
        lemma_decimal_parts(init, j);
        assert(init.take(j) =~= s.take(j));
        assert(s.skip(j).drop_last() =~= init.skip(j));
        assert(s.skip(j).last() == s.last());
        let k = (init.len() - j) as nat;
        let head = decimal(s.take(j));
        assert(head * (10 * ten_to(k)) == 10 * (head * ten_to(k))) by (nonlinear_arith);
    }
}

/// A quotient and a remainder make the rounded quotient, from either side.
proof fn lemma_rounded_down(n: int, q: int, r: int, t: int)
    requires
        n == q * t + r,
        0 <= r < t,
    ensures
        n / t == q,
        (-n) / t == (if r == 0 {
            -q
        } else {
            -q - 1
        }),
{
    assert(n / t == q) by {
        vstd::arithmetic::div_mod::lemma_fundamental_div_mod_converse(n, t, q, r);
    }
    if r == 0 {
        assert((-n) == (-q) * t + 0) by (nonlinear_arith)
            requires
                n == q * t + r,
                r == 0,
        ;
        vstd::arithmetic::div_mod::lemma_fundamental_div_mod_converse(-n, t, -q, 0);
    } else {
        assert((-n) == (-q - 1) * t + (t - r)) by (nonlinear_arith)
            requires
                n == q * t + r,
        ;
        vstd::arithmetic::div_mod::lemma_fundamental_div_mod_converse(-n, t, -q - 1, t - r);
    }
}

/// From the third power of ten on, only nothing stays in the range of an octet.
proof fn lemma_far_up(n: nat, minus: bool, shift: int)
    requires
        shift >= 3,
    ensures
        saturated(scaled(with_sign(minus, n), shift)) == (if n == 0 {
            0int
        } else if minus {
            -128int
        } else {
            127int
        }),
{
    let t = ten_to(shift as nat) as int;
    let v = with_sign(minus, n);
    lemma_ten_to(3, shift as nat);
    assert(ten_to(3) == 1000) by {
        reveal_with_fuel(ten_to, 4);
    }
    assert(n == 0 ==> v * t == 0) by (nonlinear_arith)
        requires
            n == 0 ==> v == 0,
    ;
    assert(v >= 1 ==> v * t >= 1000) by (nonlinear_arith)
        requires
            t >= 1000,
    ;
    assert(v <= -1 ==> v * t <= -1000) by (nonlinear_arith)
        requires
            t >= 1000,
    ;
}

/// Divided by as large a power of ten as there are digits, next to nothing is left.
proof fn lemma_far_down(digits: Seq<char>, minus: bool, shift: int)
    requires
        no_other_than_digits(digits),
        digits.len() > 0,
        shift <= -digits.len(),
    ensures
        scaled(with_sign(minus, decimal(digits)), shift) == (if minus && decimal(digits) > 0 {
            -1int
        } else {
            0int
        }),
{
    let n = decimal(digits) as int;
    let t = ten_to((-shift) as nat) as int;
    lemma_decimal_below(digits);
    lemma_ten_to(digits.len(), (-shift) as nat);
    assert(0 * t == 0) by (nonlinear_arith);
    lemma_rounded_down(n, 0, n, t);
}

/// In between, what is left are the first digits, and whether the others are zeros.
proof fn lemma_near(
    digits: Seq<char>,
    head: Seq<char>,
    tail: Seq<char>,
    minus: bool,
    shift: int,
)
    requires
        no_other_than_digits(digits),
        -digits.len() < shift < 3,
        head == digits.take(digits.len() - tail.len()),
        tail == digits.skip(digits.len() - tail.len()),
        tail.len() == (if shift < 0 {
            -shift
        } else {
            0
        }),
    ensures
        scaled(with_sign(minus, decimal(digits)), shift) == ({
            let h = decimal(head) as int;
            let size = if shift == 2 {
                h * 100
            } else if shift == 1 {
                h * 10
            } else {
                h
            };
            if !minus {
                size
            } else if all_zeros(tail) {
                -size
            } else {
                -size - 1
            }
        }),
{
    let n = decimal(digits) as int;
    let h = decimal(head) as int;
    let keep = digits.len() - tail.len();
    if shift < 0 {
        lemma_decimal_parts(digits, keep);
        lemma_decimal_zero(tail);
        lemma_decimal_below(tail);
        lemma_rounded_down(n, h, decimal(tail) as int, ten_to((-shift) as nat) as int);
    } else {
        assert(head =~= digits);
        assert(ten_to(0) == 1 && ten_to(1) == 10 && ten_to(2) == 100) by {
            reveal_with_fuel(ten_to, 3);
        }
        let v = with_sign(minus, decimal(digits));
        let t = ten_to(shift as nat) as int;
        assert(t == 1 ==> v * t == v) by (nonlinear_arith);
        assert(t == 10 ==> v * t == 10 * v) by (nonlinear_arith);
        assert(t == 100 ==> v * t == 100 * v) by (nonlinear_arith);
    }
}

/// An exponent cut so that the result stays the same: nothing larger or smaller
/// matters to so many digits.
pub open spec fn cut(exponent: int, cap: int) -> int {
    if exponent > cap {
        cap
    } else if exponent < -cap {
        -cap
    } else {
        exponent
    }
}

proof fn lemma_cut(digits: Seq<char>, minus: bool, behind: int, exponent: int)
    requires
        no_other_than_digits(digits),
        digits.len() > 0,
        0 <= behind <= digits.len(),
    ensures
        saturated(scaled(with_sign(minus, decimal(digits)), exponent - behind)) == saturated(
            scaled(
                with_sign(minus, decimal(digits)),
                cut(exponent, digits.len() as int + 3) - behind,
            ),
        ),
{
    let n = decimal(digits);
    let near = cut(exponent, digits.len() as int + 3);
    if exponent > digits.len() + 3 {
        lemma_far_up(n, minus, exponent - behind);
        lemma_far_up(n, minus, near - behind);
    } else if exponent < -(digits.len() + 3) {
        lemma_far_down(digits, minus, exponent - behind);
        lemma_far_down(digits, minus, near - behind);
    }
}

/// Reads digits, or nothing, as a number cut at `cap`.
fn parse_capped(s: &[char], cap: u128) -> (r: Option<u128>)
    requires
        cap < u128::MAX / 10 - 10,
    ensures
        match r {
            Some(v) => no_other_than_digits(s@) && v == (if decimal(s@) < cap {
                decimal(s@) as int
            } else {
                cap as int
            }),
            None => !no_other_than_digits(s@),
        },
{
    let mut v: u128 = 0;
    let mut i: usize = 0;
    assert(s@.take(0) =~= Seq::<char>::empty());
    while i < s.len()
        invariant
            i <= s.len(),
            cap < u128::MAX / 10 - 10,
            v <= cap,
            v == (if decimal(s@.take(i as int)) < cap {
                decimal(s@.take(i as int)) as int
            } else {
                cap as int
            }),
            forall|j: int| 0 <= j < i ==> is_digit(#[trigger] s@[j]),
        decreases s.len() - i,
    {
        let c: char = s[i];
        if !('0' <= c && c <= '9') {
            assert(!is_digit(s@[i as int]));
            return None;
        }
        let digit: u128 = (c as u32 - '0' as u32) as u128;
        assert(s@.take(i as int + 1).drop_last() =~= s@.take(i as int));
        let next: u128 = v * 10 + digit;
        v = if next < cap { next } else { cap };
        i = i + 1;
    }
    assert(s@.take(i as int) =~= s@);
    Some(v)
}

/// Are there only zeros?
fn zeros(s: &[char]) -> (r: bool)
    ensures
        r == all_zeros(s@),
{
    let mut i: usize = 0;
    while i < s.len()
        invariant
            i <= s.len(),
            forall|j: int| 0 <= j < i ==> #[trigger] s@[j] == '0',
        decreases s.len() - i,
    {
        if s[i] != '0' {
            return false;
        }
        i = i + 1;
    }
    true
}

/// Does a text spell a word, each letter small or large?
fn spelled(s: &[char], small: &[char], large: &[char]) -> (r: bool)
    requires
        small.len() == large.len(),
    ensures
        r == spells(s@, small@, large@),
{
    if s.len() != small.len() {
        return false;
    }
    let mut i: usize = 0;
    while i < s.len()
        invariant
            i <= s.len(),
            s.len() == small.len(),
            small.len() == large.len(),
            forall|j: int| 0 <= j < i ==> (#[trigger] s@[j] == small@[j] || s@[j] == large@[j]),
        decreases s.len() - i,
    {
        if s[i] != small[i] && s[i] != large[i] {
            assert(s@[i as int] != small@[i as int]);
            return false;
        }
        i = i + 1;
    }
    true
}

/// The text behind the sign, where there is one.
fn without_sign(s: &[char]) -> (d: &[char])
    ensures
        d@ == unmarked(s@),
{
    if s.len() > 0 && (s[0] == '-' || s[0] == '+') {
        let d: &[char] = vstd::slice::slice_subrange(s, 1, s.len());
        assert(d@ =~= s@.skip(1));
        d
    } else {
        s
    }
}

/// Reads a whole number with or without a sign, cut at `cap` on either side.
fn parse_cut(s: &[char], cap: u128) -> (r: Option<i128>)
    requires
        cap <= 0x2_0000_0000_0000_0000,
    ensures
        match whole_number(s@) {
            Some(v) => r is Some && r->0 == cut(v, cap as int),
            None => r is None,
        },
{
    let d: &[char] = without_sign(s);
    if d.len() == 0 {
        return None;
    }
    match parse_capped(d, cap) {
        None => None,
        Some(n) => if s.len() > 0 && s[0] == '-' {
            Some(0 - n as i128)
        } else {
            Some(n as i128)
        },
    }
}

/// Rounds down what digits spell, times a power of ten.
fn round_down(digits: &[char], minus: bool, shift: i128) -> (r: i8)
    requires
        all_digits(digits@),
    ensures
        r == saturated(scaled(with_sign(minus, decimal(digits@)), shift as int)),
{
    let len: i128 = digits.len() as i128;
    let nothing: bool = zeros(digits);
    proof {
        lemma_decimal_zero(digits@);
    }
    if shift >= 3 {
        proof {
            lemma_far_up(decimal(digits@), minus, shift as int);
        }
        return if nothing {
            0
        } else if minus {
            -128
        } else {
            127
        };
    }
    if shift <= -len {
        proof {
            lemma_far_down(digits@, minus, shift as int);
        }
        return if minus && !nothing {
            -1
        } else {
            0
        };
    }
    let keep: usize = if shift < 0 { (len + shift) as usize } else { digits.len() };
    let head: &[char] = vstd::slice::slice_subrange(digits, 0, keep);
    let tail: &[char] = vstd::slice::slice_subrange(digits, keep, digits.len());
    assert(head@ =~= digits@.take(keep as int));
    assert(tail@ =~= digits@.skip(keep as int));
    let exact: bool = zeros(tail);
    let n: i128 = match parse_capped(head, 200) {
        Some(n) => n as i128,
        None => {
            assert(false);
            0
        },
    };
    let size: i128 = if shift == 2 {
        n * 100
    } else if shift == 1 {
        n * 10
    } else {
        n
    };
    let down: i128 = if !minus {
        size
    } else if exact {
        0 - size
    } else {
        0 - size - 1
    };
    proof {
        lemma_near(digits@, head@, tail@, minus, shift as int);
    }
    if down > 127 {
        127
    } else if down < -128 {
        -128
    } else {
        down as i8
    }
}

/// Where does the exponent's mark stand?
fn find_exponent(d: &[char]) -> (at: usize)
    ensures
        at == exponent_mark(d@),
        at <= d.len(),
{
    let small: usize = find_char(d, 'e', 0);
    let large: usize = find_char(d, 'E', 0);
    if small < large {
        small
    } else {
        large
    }
}

/// The digits of a decimal number without its point, and how many of them stood
/// behind it.
fn take_digits(m: &[char]) -> (r: Option<(Vec<char>, usize)>)
    ensures
        match digits_of(m@) {
            Some((digits, behind)) => r matches Some((d, b)) && d@ == digits && b == behind && b
                <= digits.len(),
            None => r is None,
        },
{
    let point: usize = find_char(m, '.', 0);
    let mut digits: Vec<char> = Vec::new();
    let mut i: usize = 0;
    let ghost fraction = if point < m@.len() {
        m@.skip(point as int + 1)
    } else {
        Seq::empty()
    };
    let ghost whole = m@.take(point as int) + fraction;
    while i < m.len()
        invariant
            i <= m.len(),
            point == first_at(m@, '.', 0),
            point <= m.len(),
            fraction == (if point < m@.len() {
                m@.skip(point as int + 1)
            } else {
                Seq::empty()
            }),
            whole == m@.take(point as int) + fraction,
            digits@.len() == (if i <= point {
                i as int
            } else {
                i - 1
            }),
            digits@ == whole.take(digits@.len() as int),
            no_other_than_digits(digits@),
        decreases m.len() - i,
    {
        if i != point {
            let c: char = m[i];
            let ghost before = digits@;
            assert(whole[before.len() as int] == c);
            if !('0' <= c && c <= '9') {
                assert(!is_digit(whole[before.len() as int]));
                return None;
            }
            digits.push(c);
            assert(digits@ =~= whole.take(digits@.len() as int));
        }
        i = i + 1;
    }
    assert(digits@ =~= whole);
    if digits.len() == 0 {
        return None;
    }
    let behind: usize = digits.len() - point;
    Some((digits, behind))
}

/// Rounds down what a text spells to a signed octet.
pub fn parse_floor(s: &[char]) -> (r: Option<Rounded>)
    ensures
        r == floor_of(s@),
{
    let minus: bool = s.len() > 0 && s[0] == '-';
    let d: &[char] = without_sign(s);
    let nan_small: [char; 3] = NAN_SMALL;
    let nan_large: [char; 3] = NAN_LARGE;
    if spelled(d, nan_small.as_slice(), nan_large.as_slice()) {
        return Some(Rounded::NotANumber);
    }
    let inf_small: [char; 3] = INF_SMALL;
    let inf_large: [char; 3] = INF_LARGE;
    let infinity_small: [char; 8] = INFINITY_SMALL;
    let infinity_large: [char; 8] = INFINITY_LARGE;
    if spelled(d, inf_small.as_slice(), inf_large.as_slice()) || spelled(
        d,
        infinity_small.as_slice(),
        infinity_large.as_slice(),
    ) {
        return Some(
            Rounded::Whole(
                if minus {
                    -128
                } else {
                    127
                },
            ),
        );
    }
    let mark: usize = find_exponent(d);
    let mantissa: &[char] = vstd::slice::slice_subrange(d, 0, mark);
    assert(mantissa@ =~= d@.take(mark as int));
    let (digits, behind): (Vec<char>, usize) = match take_digits(mantissa) {
        None => {
            return None;
        },
        Some(found) => found,
    };
    let exponent: i128 = if mark < d.len() {
        let rest: &[char] = vstd::slice::slice_subrange(d, mark + 1, d.len());
        assert(rest@ =~= d@.skip(mark as int + 1));
        match parse_cut(rest, digits.len() as u128 + 3) {
            None => {
                return None;
            },
            Some(e) => e,
        }
    } else {
        0
    };
    proof {
        lemma_cut(digits@, minus, behind as int, exponent_of(d@)->0);
    }
    Some(Rounded::Whole(round_down(digits.as_slice(), minus, exponent - behind as i128)))
}

// ---------------------------------------------------------------------------
// Laws
// ---------------------------------------------------------------------------

/// White space is what the character tables call so: the blanks and line ends of ASCII,
/// and a few others.
pub proof fn law_what_counts_as_space(c: char)
    ensures
        is_space(c) <==> seq![
            0x09int,
            0x0a,
            0x0b,
            0x0c,
            0x0d,
            0x20,
            0x85,
            0xa0,
            0x1680,
            0x2000,
            0x2001,
            0x2002,
            0x2003,
            0x2004,
            0x2005,
            0x2006,
            0x2007,
            0x2008,
            0x2009,
            0x200a,
            0x2028,
            0x2029,
            0x202f,
            0x205f,
            0x3000,
        ].contains(c as int),
{
    let list = seq![
        0x09int,
        0x0a,
        0x0b,
        0x0c,
        0x0d,
        0x20,
        0x85,
        0xa0,
        0x1680,
        0x2000,
        0x2001,
        0x2002,
        0x2003,
        0x2004,
        0x2005,
        0x2006,
        0x2007,
        0x2008,
        0x2009,
        0x200a,
        0x2028,
        0x2029,
        0x202f,
        0x205f,
        0x3000,
    ];
    let v = c as int;
    if is_space(c) {
        let i: int = if v <= 0x0d {
            v - 9
        } else if v == 0x20 {
            5
        } else if v == 0x85 {
            6
        } else if v == 0xa0 {
            7
        } else if v == 0x1680 {
            8
        } else if v <= 0x200a {
            9 + v - 0x2000
        } else if v == 0x2028 {
            20
        } else if v == 0x2029 {
            21
        } else if v == 0x202f {
            22
        } else if v == 0x205f {
            23
        } else {
            24
        };
        assert(list[i] == v);
    }
}

/// Trimming takes away the white space around a text, all of it and nothing else.
pub proof fn law_only_space_is_trimmed(a: Seq<char>, m: Seq<char>, b: Seq<char>)
    requires
        forall|i: int| 0 <= i < a.len() ==> is_space(#[trigger] a[i]),
        forall|i: int| 0 <= i < b.len() ==> is_space(#[trigger] b[i]),
        m.len() > 0 ==> !is_space(m[0]) && !is_space(m.last()),
    ensures
        trimmed(a + m + b) == m,
        m.len() > 0 ==> trimmed_start(a + m + b) == m + b,
{
    lemma_trimmed_start(a, m + b);
    assert(a + m + b =~= a + (m + b));
    if m.len() > 0 {
        assert((m + b)[0] == m[0]);
        lemma_trimmed_end(m, b);
    } else {
        assert(m + b =~= b);
        assert forall|i: int| 0 <= i < (a + m + b).len() implies is_space(
            #[trigger] (a + m + b)[i],
        ) by {
            if i < a.len() {
                assert(is_space(a[i]));
            } else {
                assert(is_space(b[i - a.len()]));
            }
        }
        lemma_all_space(a + m + b);
        assert(trimmed_end(Seq::<char>::empty()) =~= m);
    }
}

proof fn lemma_trimmed_start(a: Seq<char>, m: Seq<char>)
    requires
        forall|i: int| 0 <= i < a.len() ==> is_space(#[trigger] a[i]),
    ensures
        trimmed_start(a + m) == trimmed_start(m),
    decreases a.len(),
{
    if a.len() > 0 {
        assert((a + m)[0] == a[0]);
        assert((a + m).skip(1) =~= a.skip(1) + m);
        lemma_trimmed_start(a.skip(1), m);
    } else {
        assert(a + m =~= m);
    }
}

proof fn lemma_trimmed_end(m: Seq<char>, b: Seq<char>)
    requires
        forall|i: int| 0 <= i < b.len() ==> is_space(#[trigger] b[i]),
    ensures
        trimmed_end(m + b) == trimmed_end(m),
    decreases b.len(),
{
    if b.len() > 0 {
        assert((m + b).last() == b[b.len() - 1]);
        assert((m + b).drop_last() =~= m + b.drop_last());
        lemma_trimmed_end(m, b.drop_last());
    } else {
        assert(m + b =~= m);
    }
}

proof fn lemma_all_space(s: Seq<char>)
    requires
        forall|i: int| 0 <= i < s.len() ==> is_space(#[trigger] s[i]),
    ensures
        trimmed_start(s) == Seq::<char>::empty(),
    decreases s.len(),
{
    if s.len() > 0 {
        lemma_all_space(s.skip(1));
    } else {
        assert(s =~= Seq::<char>::empty());
    }
}

/// Digits spell a number by their places: each weighs ten times as much as the one
/// behind it.
pub proof fn law_digits_weigh_by_their_place(s: Seq<char>, c: char)
    requires
        is_digit(c),
    ensures
        decimal(Seq::empty()) == 0,
        decimal(s.push(c)) == 10 * decimal(s) + (c as int - 48),
{
    assert(s.push(c).drop_last() =~= s);
}

/// A number is digits alone, at least one, with or without a plus sign before them, and
/// no larger than asked for.
pub proof fn law_which_texts_are_numbers(d: Seq<char>, max: int)
    ensures
        ({
            let digits = d.len() > 0 && forall|i: int|
                0 <= i < d.len() ==> '0' <= #[trigger] d[i] <= '9';
            let want = if digits && decimal(d) <= max {
                Some(decimal(d) as int)
            } else {
                None
            };
            &&& d.len() == 0 || d[0] != '+' ==> unsigned(d, max) == want
            &&& unsigned(seq!['+'] + d, max) == want
        }),
{
    assert((seq!['+'] + d).skip(1) =~= d);
    if d.len() > 0 && forall|i: int| 0 <= i < d.len() ==> '0' <= #[trigger] d[i] <= '9' {
        assert forall|i: int| 0 <= i < d.len() implies is_digit(#[trigger] d[i]) by {}
    }
    if all_digits(d) {
        assert forall|i: int| 0 <= i < d.len() implies '0' <= #[trigger] d[i] <= '9' by {
            assert(is_digit(d[i]));
        }
    }
}

/// A whole number is digits alone, at least one, with or without a sign before them; a
/// minus sign makes it negative.
pub proof fn law_which_texts_are_whole_numbers(d: Seq<char>, min: int, max: int)
    ensures
        ({
            let digits = d.len() > 0 && forall|i: int|
                0 <= i < d.len() ==> '0' <= #[trigger] d[i] <= '9';
            let n = decimal(d) as int;
            let bare = d.len() == 0 || d[0] != '+' && d[0] != '-';
            &&& digits ==> whole_number(d) == Some(n) && whole_number(seq!['+'] + d) == Some(n)
                && whole_number(seq!['-'] + d) == Some(-n)
            &&& !digits ==> (bare ==> whole_number(d) is None) && whole_number(seq!['+'] + d) is None
                && whole_number(seq!['-'] + d) is None
            &&& signed(seq!['+'] + d, min, max) == (if digits && min <= n <= max {
                Some(n)
            } else {
                None
            })
            &&& bare ==> signed(d, min, max) == signed(seq!['+'] + d, min, max)
            &&& signed(seq!['-'] + d, min, max) == (if digits && min <= -n <= max {
                Some(-n)
            } else {
                None
            })
        }),
{
    assert((seq!['+'] + d).skip(1) =~= d);
    assert((seq!['-'] + d).skip(1) =~= d);
    if d.len() > 0 && forall|i: int| 0 <= i < d.len() ==> '0' <= #[trigger] d[i] <= '9' {
        assert forall|i: int| 0 <= i < d.len() implies is_digit(#[trigger] d[i]) by {}
    }
    if all_digits(d) {
        assert forall|i: int| 0 <= i < d.len() implies '0' <= #[trigger] d[i] <= '9' by {
            assert(is_digit(d[i]));
        }
    }
}

/// A character is found where it first stands from the start of the search on.
pub proof fn law_a_character_is_found_where_it_first_stands(
    s: Seq<char>,
    c: char,
    from: int,
    at: int,
)
    requires
        0 <= from <= at <= s.len(),
        at < s.len() ==> s[at] == c,
        forall|i: int| from <= i < at ==> #[trigger] s[i] != c,
    ensures
        first_at(s, c, from) == at,
{
    lemma_first_at(s, c, from);
    let f = first_at(s, c, from);
    if f < at {
        assert(s[f] != c);
    }
}

/// A text parts at its first separator: what stands before it and all that stands behind
/// it; without a separator it does not part.
pub proof fn law_a_text_parts_at_its_first_separator(a: Seq<char>, c: char, b: Seq<char>)
    requires
        forall|i: int| 0 <= i < a.len() ==> #[trigger] a[i] != c,
    ensures
        parted(a + seq![c] + b, c) == Some((a, b)),
        parted(a, c) is None,
        pieces(a + seq![c] + b, c) == seq![a] + pieces(b, c),
        pieces(a, c) == seq![a],
{
    let s = a + seq![c] + b;
    assert forall|i: int| 0 <= i < a.len() implies #[trigger] s[i] != c by {
        assert(s[i] == a[i]);
    }
    law_a_character_is_found_where_it_first_stands(s, c, 0, a.len() as int);
    law_a_character_is_found_where_it_first_stands(a, c, 0, a.len() as int);
    assert(s.take(a.len() as int) =~= a);
    assert(s.skip(a.len() as int + 1) =~= b);
}

/// A list of pieces gives the numbers among them, in order; a piece that is none, with
/// the white space around it taken away, is passed over.
pub proof fn law_numbers_are_taken_in_order(list: Seq<Seq<char>>, piece: Seq<char>, max: int)
    ensures
        numbers_in(Seq::empty(), max) == Seq::<int>::empty(),
        numbers_in(list.push(piece), max) == (match unsigned(trimmed(piece), max) {
            Some(v) => numbers_in(list, max).push(v),
            None => numbers_in(list, max),
        }),
    decreases list.len(),
{
    let all = list.push(piece);
    if list.len() > 0 {
        law_numbers_are_taken_in_order(list.skip(1), piece, max);
        assert(all.skip(1) =~= list.skip(1).push(piece));
        assert(all[0] == list[0]);
        assert(numbers_in(all, max) =~= match unsigned(trimmed(piece), max) {
            Some(v) => numbers_in(list, max).push(v),
            None => numbers_in(list, max),
        });
    } else {
        assert(all.skip(1) =~= Seq::<Seq<char>>::empty());
        assert(all[0] == piece);
        assert(numbers_in(all.skip(1), max) =~= Seq::<int>::empty());
        assert(numbers_in(list, max) =~= Seq::<int>::empty());
        assert(numbers_in(all, max) =~= match unsigned(trimmed(piece), max) {
            Some(v) => numbers_in(list, max).push(v),
            None => numbers_in(list, max),
        });
    }
}

/// The first word is what stands between the white space at the start and the next.
pub proof fn law_the_first_word(a: Seq<char>, w: Seq<char>, rest: Seq<char>)
    requires
        forall|i: int| 0 <= i < a.len() ==> is_space(#[trigger] a[i]),
        forall|i: int| 0 <= i < w.len() ==> !is_space(#[trigger] w[i]),
        rest.len() > 0 ==> is_space(rest[0]),
        w.len() == 0 ==> rest.len() == 0,
    ensures
        first_word(a + w + rest) == w,
{
    assert(a + w + rest =~= a + (w + rest));
    lemma_trimmed_start(a, w + rest);
    let t = w + rest;
    if w.len() > 0 {
        assert(t[0] == w[0]);
    }
    assert(trimmed_start(t) == t);
    lemma_first_space(t, 0, w.len() as int);
    assert(t.take(w.len() as int) =~= w);
}

proof fn lemma_first_space(s: Seq<char>, from: int, at: int)
    requires
        0 <= from <= at <= s.len(),
        at < s.len() ==> is_space(s[at]),
        forall|i: int| from <= i < at ==> !is_space(#[trigger] s[i]),
    ensures
        first_space(s, from) == at,
    decreases s.len() - from,
{
    if from < at {
        lemma_first_space(s, from + 1, at);
    }
}

/// A pattern stands where its characters stand one behind the other, and it is found
/// where it first does.
pub proof fn law_a_pattern_is_found_where_it_first_stands(
    s: Seq<char>,
    pat: Seq<char>,
    from: int,
    at: int,
)
    requires
        0 <= from,
    ensures
        stands_at(s, pat, at) <==> 0 <= at && at + pat.len() <= s.len() && forall|i: int|
            0 <= i < pat.len() ==> s[at + i] == #[trigger] pat[i],
        from <= at && stands_at(s, pat, at) && (forall|i: int|
            from <= i < at ==> !stands_at(s, pat, i)) ==> pattern_at(s, pat, from) == Some(at),
        (forall|i: int| from <= i ==> !stands_at(s, pat, i)) ==> pattern_at(s, pat, from) is None,
    decreases s.len() + 1 - from,
{
    if 0 <= at && at + pat.len() <= s.len() {
        let here = s.subrange(at, at + pat.len());
        if forall|i: int| 0 <= i < pat.len() ==> s[at + i] == #[trigger] pat[i] {
            assert(here =~= pat);
        }
        if here == pat {
            assert forall|i: int| 0 <= i < pat.len() implies s[at + i] == #[trigger] pat[i] by {
                assert(here[i] == pat[i]);
            }
        }
    }
    if from <= s.len() && !stands_at(s, pat, from) {
        law_a_pattern_is_found_where_it_first_stands(s, pat, from + 1, at);
    }
}

/// A character is found last where it stands and none behind it does.
pub proof fn law_a_character_is_found_where_it_last_stands(
    s: Seq<char>,
    c: char,
    n: int,
    at: int,
)
    requires
        0 <= n <= s.len(),
    ensures
        0 <= at < n && s[at] == c && (forall|i: int| at < i < n ==> #[trigger] s[i] != c)
            ==> last_at(s, c, n) == Some(at),
        (forall|i: int| 0 <= i < n ==> #[trigger] s[i] != c) ==> last_at(s, c, n) is None,
    decreases n,
{
    if n > 0 {
        law_a_character_is_found_where_it_last_stands(s, c, n - 1, at);
    }
}

/// The words for numbers are `nan`, `inf` and `infinity`, each letter small or large, and
/// no other text.
pub proof fn law_the_words_for_numbers(s: Seq<char>)
    ensures
        names_nan(s) <==> s.len() == 3 && (s[0] == 'n' || s[0] == 'N') && (s[1] == 'a' || s[1]
            == 'A') && (s[2] == 'n' || s[2] == 'N'),
        names_infinity(s) <==> (s.len() == 3 || s.len() == 8) && (s[0] == 'i' || s[0] == 'I') && (
        s[1] == 'n' || s[1] == 'N') && (s[2] == 'f' || s[2] == 'F') && (s.len() == 8 ==> (s[3] == 'i'
            || s[3] == 'I') && (s[4] == 'n' || s[4] == 'N') && (s[5] == 'i' || s[5] == 'I') && (s[6]
            == 't' || s[6] == 'T') && (s[7] == 'y' || s[7] == 'Y')),
{
    assert(spells(s, NAN_SMALL@, NAN_LARGE@) ==> (s[0] == NAN_SMALL@[0] || s[0] == NAN_LARGE@[0])
        && (s[1] == NAN_SMALL@[1] || s[1] == NAN_LARGE@[1]) && (s[2] == NAN_SMALL@[2] || s[2]
        == NAN_LARGE@[2]));
    assert(spells(s, INF_SMALL@, INF_LARGE@) ==> (s[0] == INF_SMALL@[0] || s[0] == INF_LARGE@[0])
        && (s[1] == INF_SMALL@[1] || s[1] == INF_LARGE@[1]) && (s[2] == INF_SMALL@[2] || s[2]
        == INF_LARGE@[2]));
    if spells(s, INFINITY_SMALL@, INFINITY_LARGE@) {
        assert(s[0] == INFINITY_SMALL@[0] || s[0] == INFINITY_LARGE@[0]);
        assert(s[1] == INFINITY_SMALL@[1] || s[1] == INFINITY_LARGE@[1]);
        assert(s[2] == INFINITY_SMALL@[2] || s[2] == INFINITY_LARGE@[2]);
        assert(s[3] == INFINITY_SMALL@[3] || s[3] == INFINITY_LARGE@[3]);
        assert(s[4] == INFINITY_SMALL@[4] || s[4] == INFINITY_LARGE@[4]);
        assert(s[5] == INFINITY_SMALL@[5] || s[5] == INFINITY_LARGE@[5]);
        assert(s[6] == INFINITY_SMALL@[6] || s[6] == INFINITY_LARGE@[6]);
        assert(s[7] == INFINITY_SMALL@[7] || s[7] == INFINITY_LARGE@[7]);
    }
}

/// A number is taken times a power of ten exactly, or divided by one and rounded down.
pub proof fn law_scaling_rounds_down(v: int, k: nat)
    ensures
        ten_to(0) == 1,
        ten_to(k + 1) == 10 * ten_to(k),
        scaled(v, k as int) == v * ten_to(k),
        scaled(v, -(k as int)) * ten_to(k) <= v < (scaled(v, -(k as int)) + 1) * ten_to(k),
{
    let t = ten_to(k) as int;
    lemma_ten_to(k, k);
    if k == 0 {
        assert(v * 1 == v) by (nonlinear_arith);
        assert((v + 1) * 1 == v + 1) by (nonlinear_arith);
    } else {
        vstd::arithmetic::div_mod::lemma_fundamental_div_mod(v, t);
        vstd::arithmetic::div_mod::lemma_mod_bound(v, t);
        let q = v / t;
        assert(t * q == q * t) by (nonlinear_arith);
        assert((q + 1) * t == q * t + t) by (nonlinear_arith);
    }
}

/// A number is cut to the range of a signed octet, and unchanged within it; what is no
/// number stands for 0.
pub proof fn law_numbers_are_cut_to_an_octet(v: int, w: i8)
    ensures
        -128 <= v <= 127 ==> saturated(v) == v,
        v < -128 ==> saturated(v) == -128,
        v > 127 ==> saturated(v) == 127,
        octet_of(Rounded::Whole(w)) == w,
        octet_of(Rounded::NotANumber) == 0,
{
}

/// The digits of a decimal number are those on both sides of its point, and those behind
/// it are counted; there is at least one digit, at most one point and nothing else.
pub proof fn law_the_digits_of_a_decimal(a: Seq<char>, b: Seq<char>)
    requires
        forall|i: int| 0 <= i < a.len() ==> is_digit(#[trigger] a[i]),
        forall|i: int| 0 <= i < b.len() ==> is_digit(#[trigger] b[i]),
    ensures
        a.len() + b.len() > 0 ==> digits_of(a + seq!['.'] + b) == Some((a + b, b.len() as int)),
        a.len() > 0 ==> digits_of(a) == Some((a, 0int)),
        a.len() + b.len() == 0 ==> digits_of(a + seq!['.'] + b) is None && digits_of(a) is None,
{
    let m = a + seq!['.'] + b;
    assert forall|i: int| 0 <= i < a.len() implies #[trigger] m[i] != '.' && a[i] != '.' by {
        assert(m[i] == a[i]);
        assert(is_digit(a[i]));
    }
    assert forall|i: int| 0 <= i < a.len() implies #[trigger] a[i] != '.' by {
        assert(is_digit(a[i]));
    }
    law_a_character_is_found_where_it_first_stands(m, '.', 0, a.len() as int);
    law_a_character_is_found_where_it_first_stands(a, '.', 0, a.len() as int);
    assert(m.take(a.len() as int) =~= a);
    assert(m.skip(a.len() as int + 1) =~= b);
    assert(a.take(a.len() as int) =~= a);
    assert(a + Seq::<char>::empty() =~= a);
    assert forall|i: int| 0 <= i < (a + b).len() implies is_digit(#[trigger] (a + b)[i]) by {
        if i < a.len() {
            assert(is_digit(a[i]));
        } else {
            assert(is_digit(b[i - a.len()]));
        }
    }
}

/// A text with another character than digits and a point is no decimal number.
pub proof fn law_decimals_hold_digits_alone(m: Seq<char>, i: int)
    requires
        0 <= i < m.len(),
        !is_digit(m[i]) && m[i] != '.',
    ensures
        digits_of(m) is None,
{
    lemma_first_at(m, '.', 0);
    let point = first_at(m, '.', 0);
    let fraction = if point < m.len() {
        m.skip(point + 1)
    } else {
        Seq::empty()
    };
    let digits = m.take(point) + fraction;
    if i < point {
        assert(digits[i] == m[i]);
    } else {
        assert(i != point);
        assert(digits[i - 1] == m[i]);
    }
}

/// A decimal number is read with its sign and its exponent: the digits, times ten to the
/// exponent less the number of digits behind the point, rounded down and cut.
pub proof fn law_a_decimal_is_rounded_down(
    m: Seq<char>,
    digits: Seq<char>,
    behind: int,
    x: Seq<char>,
    e: int,
)
    requires
        digits_of(m) == Some((digits, behind)),
        whole_number(x) == Some(e),
    ensures
        ({
            let n = decimal(digits) as int;
            let up = |v: int, shift: int| Some(Rounded::Whole(saturated(scaled(v, shift)) as i8));
            &&& floor_of(m) == up(n, -behind)
            &&& floor_of(seq!['+'] + m) == up(n, -behind)
            &&& floor_of(seq!['-'] + m) == up(-n, -behind)
            &&& floor_of(m + seq!['e'] + x) == up(n, e - behind)
            &&& floor_of(m + seq!['E'] + x) == up(n, e - behind)
            &&& floor_of(seq!['+'] + m + seq!['e'] + x) == up(n, e - behind)
            &&& floor_of(seq!['-'] + m + seq!['e'] + x) == up(-n, e - behind)
            &&& floor_of(seq!['-'] + m + seq!['E'] + x) == up(-n, e - behind)
        }),
{
    lemma_decimal_shape(m);
    lemma_read_plain(m);
    lemma_read_marked(m, 'e', x);
    lemma_read_marked(m, 'E', x);
    assert((seq!['+'] + m).skip(1) =~= m);
    assert((seq!['-'] + m).skip(1) =~= m);
    assert((seq!['+'] + m + seq!['e'] + x).skip(1) =~= m + seq!['e'] + x);
    assert((seq!['-'] + m + seq!['e'] + x).skip(1) =~= m + seq!['e'] + x);
    assert((seq!['-'] + m + seq!['E'] + x).skip(1) =~= m + seq!['E'] + x);
    assert((m + seq!['e'] + x)[0] == m[0]);
    assert((m + seq!['E'] + x)[0] == m[0]);
}

/// What can stand in a decimal number.
proof fn lemma_decimal_shape(m: Seq<char>)
    requires
        digits_of(m) is Some,
    ensures
        m.len() > 0,
        forall|i: int| 0 <= i < m.len() ==> is_digit(#[trigger] m[i]) || m[i] == '.',
{
    lemma_first_at(m, '.', 0);
    let point = first_at(m, '.', 0);
    let fraction = if point < m.len() {
        m.skip(point + 1)
    } else {
        Seq::empty()
    };
    let digits = m.take(point) + fraction;
    assert(digits.len() > 0);
    assert forall|i: int| 0 <= i < m.len() implies is_digit(#[trigger] m[i]) || m[i] == '.' by {
        if i < point {
            assert(digits[i] == m[i]);
        } else if i > point {
            assert(digits[i - 1] == m[i]);
        }
    }
}

proof fn lemma_read_plain(m: Seq<char>)
    requires
        m.len() > 0,
        forall|i: int| 0 <= i < m.len() ==> is_digit(#[trigger] m[i]) || m[i] == '.',
    ensures
        exponent_mark(m) == m.len(),
        m.take(exponent_mark(m)) == m,
        exponent_of(m) == Some(0int),
        !names_nan(m) && !names_infinity(m),
        unmarked(m) == m,
        !negative(m),
{
    assert(is_digit(m[0]) || m[0] == '.');
    law_a_character_is_found_where_it_first_stands(m, 'e', 0, m.len() as int);
    law_a_character_is_found_where_it_first_stands(m, 'E', 0, m.len() as int);
    law_the_words_for_numbers(m);
    assert(m.take(m.len() as int) =~= m);
}

proof fn lemma_read_marked(m: Seq<char>, c: char, x: Seq<char>)
    requires
        m.len() > 0,
        forall|i: int| 0 <= i < m.len() ==> is_digit(#[trigger] m[i]) || m[i] == '.',
        c == 'e' || c == 'E',
    ensures
        ({
            let s = m + seq![c] + x;
            &&& exponent_mark(s) == m.len()
            &&& s.take(exponent_mark(s)) == m
            &&& exponent_of(s) == whole_number(x)
            &&& !names_nan(s) && !names_infinity(s)
            &&& unmarked(s) == s
            &&& !negative(s)
        }),
{
    let s = m + seq![c] + x;
    let n = m.len() as int;
    assert(s[0] == m[0]);
    assert(is_digit(m[0]) || m[0] == '.');
    assert forall|i: int| 0 <= i < n implies #[trigger] s[i] != 'e' && s[i] != 'E' by {
        assert(s[i] == m[i]);
    }
    lemma_first_at(s, 'e', 0);
    lemma_first_at(s, 'E', 0);
    assert(s[n] == c);
    law_a_character_is_found_where_it_first_stands(s, c, 0, n);
    let other = if c == 'e' {
        first_at(s, 'E', 0)
    } else {
        first_at(s, 'e', 0)
    };
    if other < n {
        assert(s[other] == m[other]);
    }
    law_the_words_for_numbers(s);
    assert(s.take(n) =~= m);
    assert(s.skip(n + 1) =~= x);
}

/// The words are read with their sign: what is beyond all numbers is the end of the
/// range on its side, and what is no number has no side.
pub proof fn law_the_words_are_read_with_their_sign(w: Seq<char>)
    ensures
        names_nan(w) ==> floor_of(w) == Some(Rounded::NotANumber) && floor_of(seq!['-'] + w)
            == Some(Rounded::NotANumber) && floor_of(seq!['+'] + w) == Some(Rounded::NotANumber),
        names_infinity(w) ==> floor_of(w) == Some(Rounded::Whole(127)) && floor_of(seq!['+'] + w)
            == Some(Rounded::Whole(127)) && floor_of(seq!['-'] + w) == Some(Rounded::Whole(-128i8)),
{
    law_the_words_for_numbers(w);
    assert((seq!['+'] + w).skip(1) =~= w);
    assert((seq!['-'] + w).skip(1) =~= w);
}

/// A text that is neither a word nor a decimal number with at most a well-formed exponent
/// is refused.
pub proof fn law_other_texts_are_refused(s: Seq<char>)
    requires
        !names_nan(s),
        !names_infinity(s),
        digits_of(s.take(exponent_mark(s))) is None || exponent_of(s) is None,
    ensures
        s.len() == 0 || s[0] != '-' && s[0] != '+' ==> floor_of(s) is None,
        floor_of(seq!['-'] + s) is None,
        floor_of(seq!['+'] + s) is None,
{
    assert((seq!['+'] + s).skip(1) =~= s);
    assert((seq!['-'] + s).skip(1) =~= s);
}

} // verus!
