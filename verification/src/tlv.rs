//! Name components out of an encoded name.

use vstd::prelude::*;

use crate::octets;

verus! {

/// The number that the bytes of `s` spell, the most significant first.
pub open spec fn big_endian(s: Seq<u8>) -> nat
    decreases s.len(),
{
    if s.len() == 0 {
        0
    } else {
        256 * big_endian(s.drop_last()) + s.last() as nat
    }
}

/// The number at the front of `b` and how many bytes it takes: one byte below
/// 253, else a marker and two, four or eight bytes.
pub open spec fn var_number(b: Seq<u8>) -> Option<(nat, nat)> {
    if b.len() == 0 {
        None
    } else if b[0] < 253 {
        Some((b[0] as nat, 1))
    } else {
        let width: int = if b[0] == 253 { 3 } else if b[0] == 254 { 5 } else { 9 };
        if b.len() < width {
            None
        } else {
            Some((big_endian(b.subrange(1, width)), width as nat))
        }
    }
}

proof fn lemma_big_endian_bound(s: Seq<u8>)
    ensures
        big_endian(s) < octets::octet_range(s.len()),
    decreases s.len(),
{
    if s.len() > 0 {
        lemma_big_endian_bound(s.drop_last());
    }
}

/// Reads the variable-length number at the front of `b`: its value and how many bytes
/// are left behind it, or nothing where the bytes run out.
pub fn read_var_number(b: &[u8]) -> (r: Option<(u64, usize)>)
    ensures
        match var_number(b@) {
            Some((value, width)) => r matches Some((v, left)) && v == value && left == b@.len()
                - width,
            None => r is None,
        },
{
    if b.len() == 0 {
        return None;
    }
    let first: u8 = b[0];
    if first < 253 {
        return Some((first as u64, b.len() - 1));
    }
    let width: usize = if first == 253 {
        3
    } else if first == 254 {
        5
    } else {
        9
    };
    if b.len() < width {
        return None;
    }
    let mut v: u64 = 0;
    let mut i: usize = 1;
    assert(b@.subrange(1, 1) =~= Seq::<u8>::empty());
    while i < width
        invariant
            1 <= i <= width <= b.len(),
            width <= 9,
            v == big_endian(b@.subrange(1, i as int)),
        decreases width - i,
    {
        proof {
            let read = b@.subrange(1, i + 1);
            assert(read.drop_last() =~= b@.subrange(1, i as int));
            lemma_big_endian_bound(read);
            octets::lemma_octet_range_grows(read.len(), 8);
            octets::lemma_eight_octets();
        }
        v = v * 256 + b[i] as u64;
        i = i + 1;
    }
    Some((v, b.len() - width))
}

/// Where the value of the record at the front of `b` starts and how long it says
/// it is.
pub open spec fn record_header(b: Seq<u8>) -> Option<(nat, nat)> {
    match var_number(b) {
        Some((_, type_width)) => match var_number(b.skip(type_width as int)) {
            Some((len, len_width)) => Some((type_width + len_width, len)),
            None => None,
        },
        None => None,
    }
}

/// Reads a record's header.
fn read_record_header(b: &[u8]) -> (r: Option<(usize, u64)>)
    ensures
        match record_header(b@) {
            Some((start, len)) => {
                &&& r matches Some((s, l)) && s == start && l == len
                &&& start <= b@.len()
                &&& 0 < start
            },
            None => r is None,
        },
{
    match read_var_number(b) {
        None => None,
        Some((_, after_type)) => {
            let at: usize = b.len() - after_type;
            let rest: &[u8] = vstd::slice::slice_subrange(b, at, b.len());
            assert(rest@ =~= b@.skip(at as int));
            match read_var_number(rest) {
                None => None,
                Some((len, after_len)) => Some((b.len() - after_len, len)),
            }
        },
    }
}

/// The first `depth` values of the records in `body`, up to the first record that
/// does not fit.
pub open spec fn components_in(body: Seq<u8>, depth: nat) -> Seq<Seq<u8>>
    decreases depth,
{
    if depth == 0 {
        Seq::empty()
    } else {
        match record_header(body) {
            Some((start, len)) if start + len <= body.len() => {
                let end = (start + len) as int;
                seq![body.subrange(start as int, end)] + components_in(
                    body.skip(end),
                    (depth - 1) as nat,
                )
            },
            _ => Seq::empty(),
        }
    }
}

/// The value of an encoded name, cut short where its bytes run out.
pub open spec fn name_body(name: Seq<u8>) -> Seq<u8> {
    match record_header(name) {
        Some((start, len)) => {
            let end = if start + len <= name.len() { (start + len) as int } else { name.len() as int };
            name.subrange(start as int, end)
        },
        None => Seq::empty(),
    }
}

/// The values of the first `depth` components of an encoded name.
pub fn name_components(name_tlv: &[u8], depth: usize) -> (out: Vec<Vec<u8>>)
    ensures
        out@.map_values(|c: Vec<u8>| c@) == components_in(name_body(name_tlv@), depth as nat),
{
    let mut out: Vec<Vec<u8>> = Vec::new();
    let ghost view = |c: Vec<u8>| c@;
    let ghost want = components_in(name_body(name_tlv@), depth as nat);
    let (start, len): (usize, u64) = match read_record_header(name_tlv) {
        None => {
            assert(record_header(name_body(name_tlv@)) is None);
            assert(out@.map_values(view) =~= want);
            return out;
        },
        Some(h) => h,
    };
    let room: usize = name_tlv.len() - start;
    let end: usize = if len < room as u64 { start + len as usize } else { name_tlv.len() };
    let mut body: &[u8] = vstd::slice::slice_subrange(name_tlv, start, end);
    assert(body@ =~= name_body(name_tlv@));
    assert(out@.map_values(view) + components_in(body@, depth as nat) =~= want);
    while out.len() < depth
        invariant_except_break
            out.len() <= depth,
            view == (|c: Vec<u8>| c@),
            out@.map_values(view) + components_in(body@, (depth - out.len()) as nat) == want,
        ensures
            view == (|c: Vec<u8>| c@),
            out@.map_values(view) == want,
        decreases depth - out.len(),
    {
        let (vstart, clen): (usize, u64) = match read_record_header(body) {
            None => {
                assert(out@.map_values(view) =~= want);
                break;
            },
            Some(h) => h,
        };
        if clen > (body.len() - vstart) as u64 {
            assert(out@.map_values(view) =~= want);
            break;
        }
        let vend: usize = vstart + clen as usize;
        let value: Vec<u8> = vstd::slice::slice_to_vec(vstd::slice::slice_subrange(body, vstart, vend));
        let ghost before = out@.map_values(view);
        let ghost left = (depth - out.len()) as nat;
        out.push(value);
        let rest: &[u8] = vstd::slice::slice_subrange(body, vend, body.len());
        proof {
            assert(rest@ =~= body@.skip(vend as int));
            assert(value@ =~= body@.subrange(vstart as int, vend as int));
            assert(out@.map_values(view) =~= before.push(value@));
            assert(components_in(body@, left) =~= seq![value@] + components_in(
                rest@,
                (left - 1) as nat,
            ));
            assert(out@.map_values(view) + components_in(rest@, (left - 1) as nat) =~= want);
        }
        body = rest;
    }
    out
}

// ---------------------------------------------------------------------------
// Laws
// ---------------------------------------------------------------------------

/// Each byte weighs 256 times as much as the one behind it.
pub proof fn law_bytes_weigh_by_their_place(s: Seq<u8>, b: u8)
    ensures
        big_endian(Seq::empty()) == 0,
        big_endian(s.push(b)) == 256 * big_endian(s) + b,
{
    assert(s.push(b).drop_last() =~= s);
}

/// A number below 253 is its own byte; else the marker says how many bytes follow: two,
/// four or eight. Whatever stands behind a number is not part of it, and a number whose
/// bytes run out is none.
pub proof fn law_the_form_of_a_number(b: Seq<u8>, rest: Seq<u8>)
    ensures
        b.len() == 0 ==> var_number(b) is None,
        b.len() >= 1 && b[0] < 253 ==> var_number(b) == Some((b[0] as nat, 1nat)),
        b.len() == 2 ==> var_number(seq![253u8] + b + rest) == Some((big_endian(b), 3nat)),
        b.len() == 4 ==> var_number(seq![254u8] + b + rest) == Some((big_endian(b), 5nat)),
        b.len() == 8 ==> var_number(seq![255u8] + b + rest) == Some((big_endian(b), 9nat)),
        b.len() < 2 ==> var_number(seq![253u8] + b) is None,
        b.len() < 4 ==> var_number(seq![254u8] + b) is None,
        b.len() < 8 ==> var_number(seq![255u8] + b) is None,
{
    if b.len() == 2 {
        assert((seq![253u8] + b + rest).subrange(1, 3) =~= b);
    }
    if b.len() == 4 {
        assert((seq![254u8] + b + rest).subrange(1, 5) =~= b);
    }
    if b.len() == 8 {
        assert((seq![255u8] + b + rest).subrange(1, 9) =~= b);
    }
}

/// A number that fills its bytes reads the same whatever follows.
proof fn lemma_number_stands_alone(b: Seq<u8>, rest: Seq<u8>)
    requires
        var_number(b) matches Some((_, width)) && width == b.len(),
    ensures
        var_number(b + rest) == var_number(b),
{
    let all = b + rest;
    assert(all[0] == b[0]);
    if b[0] >= 253 {
        assert(all.subrange(1, b.len() as int) =~= b.subrange(1, b.len() as int));
    }
}

/// A record's header is its type and its length; its value starts behind them.
proof fn lemma_record_header(kind: Seq<u8>, size: Seq<u8>, rest: Seq<u8>, len: nat)
    requires
        var_number(kind) matches Some((_, width)) && width == kind.len(),
        var_number(size) == Some((len, size.len())),
    ensures
        record_header(kind + size + rest) == Some(((kind.len() + size.len()) as nat, len)),
{
    let all = kind + size + rest;
    assert(all =~= kind + (size + rest));
    lemma_number_stands_alone(kind, size + rest);
    assert(all.skip(kind.len() as int) =~= size + rest);
    lemma_number_stands_alone(size, rest);
}

/// The components of a name are the values of its records, whole and in order, and no
/// more of them than asked for.
pub proof fn law_components_are_read_in_order(
    kind: Seq<u8>,
    size: Seq<u8>,
    value: Seq<u8>,
    rest: Seq<u8>,
    depth: nat,
)
    requires
        var_number(kind) matches Some((_, width)) && width == kind.len(),
        var_number(size) == Some((value.len(), size.len())),
    ensures
        components_in(kind + size + value + rest, depth + 1) == seq![value] + components_in(
            rest,
            depth,
        ),
        components_in(kind + size + value + rest, 0) == Seq::<Seq<u8>>::empty(),
{
    let all = kind + size + value + rest;
    assert(all =~= kind + size + (value + rest));
    lemma_record_header(kind, size, value + rest, value.len());
    let start = (kind.len() + size.len()) as int;
    assert(all.subrange(start, start + value.len()) =~= value);
    assert(all.skip(start + value.len()) =~= rest);
}

/// Reading stops at a record that does not fit, and where there is none.
pub proof fn law_reading_stops_where_the_bytes_run_out(
    kind: Seq<u8>,
    size: Seq<u8>,
    part: Seq<u8>,
    len: nat,
    depth: nat,
)
    requires
        var_number(kind) matches Some((_, width)) && width == kind.len(),
        var_number(size) == Some((len, size.len())),
        part.len() < len,
    ensures
        components_in(kind + size + part, depth) == Seq::<Seq<u8>>::empty(),
        components_in(Seq::empty(), depth) == Seq::<Seq<u8>>::empty(),
        components_in(kind, depth) == Seq::<Seq<u8>>::empty(),
{
    lemma_record_header(kind, size, part, len);
    lemma_number_stands_alone(kind, Seq::empty());
    assert(kind.skip(kind.len() as int) =~= Seq::<u8>::empty());
}

/// The body of an encoded name is the value of its record, whatever follows; where the
/// bytes run out it is what is there.
pub proof fn law_the_body_of_a_name(
    kind: Seq<u8>,
    size: Seq<u8>,
    value: Seq<u8>,
    rest: Seq<u8>,
    len: nat,
)
    requires
        var_number(kind) matches Some((_, width)) && width == kind.len(),
        var_number(size) == Some((len, size.len())),
    ensures
        value.len() == len ==> name_body(kind + size + value + rest) == value,
        value.len() < len ==> name_body(kind + size + value) == value,
        name_body(kind) == Seq::<u8>::empty(),
{
    let start = (kind.len() + size.len()) as int;
    lemma_record_header(kind, size, value + rest, len);
    lemma_record_header(kind, size, value, len);
    assert(kind + size + value + rest =~= kind + size + (value + rest));
    assert((kind + size + value + rest).subrange(start, start + value.len()) =~= value);
    assert((kind + size + value).subrange(start, start + value.len()) =~= value);
    lemma_number_stands_alone(kind, Seq::empty());
    assert(kind.skip(kind.len() as int) =~= Seq::<u8>::empty());
}

/// A header that is cut short heads no record: there is no component and no body.
pub proof fn law_a_cut_header_heads_nothing(kind: Seq<u8>, part: Seq<u8>, depth: nat)
    requires
        var_number(part) is None,
    ensures
        components_in(part, depth) == Seq::<Seq<u8>>::empty(),
        name_body(part) == Seq::<u8>::empty(),
        (var_number(kind) matches Some((_, width)) && width == kind.len()) ==> components_in(
            kind + part,
            depth,
        ) == Seq::<Seq<u8>>::empty() && name_body(kind + part) == Seq::<u8>::empty(),
{
    if var_number(kind) matches Some((_, width)) && width == kind.len() {
        lemma_number_stands_alone(kind, part);
        assert((kind + part).skip(kind.len() as int) =~= part);
    }
}

} // verus!
