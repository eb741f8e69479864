use ndn_face_wireless::gcs::{GcsFilter, GCS_MAX_BYTES};
use ndn_face_wireless::tier0::{name_hash, PrefixFilter, MAX_DEPTH};

const KEY: [u8; 16] = *b"ndn/gcs-test-key";

fn deep(depth: usize) -> Vec<u8> {
    let mut v = Vec::new();
    for i in 0..depth {
        v.push(b'/');
        v.extend_from_slice(format!("c{i}").as_bytes());
    }
    v
}

#[test]
fn gcs_has_zero_false_negatives() {
    for depth in 1..=10usize {
        let name = deep(depth);
        let f = GcsFilter::from_name(&KEY, &name);
        let mut wire = [0u8; GCS_MAX_BYTES + 1];
        let len = f.to_wire(&mut wire);
        let back = GcsFilter::from_wire(&wire[..len]);
        for d in 1..=depth.min(MAX_DEPTH - 1) {
            let pfx = deep(d);
            assert!(
                back.may_match(&KEY, &pfx),
                "FALSE NEGATIVE: name depth {depth}, prefix depth {d}"
            );
        }
        assert!(back.may_match(&KEY, b"/"), "root must match at depth {depth}");
    }
}

#[test]
fn gcs_is_smaller_than_the_address_bloom() {
    for depth in [4usize, 6, 8] {
        let name = deep(depth);
        let gcs = GcsFilter::from_name(&KEY, &name).wire_len();
        let bloom = PrefixFilter::new().to_wire().len();
        assert_eq!(bloom, 16);
        assert!(
            gcs < bloom,
            "GCS ({gcs} B) should undercut the 16 B Bloom at depth {depth}"
        );
    }
}

#[test]
fn gcs_false_positive_rate_is_near_target() {
    let name = deep(8);
    let f = GcsFilter::from_name(&KEY, &name);
    let (mut fp, trials) = (0u32, 20_000u32);
    for t in 0..trials {
        let q = format!("/zzz/{t:x}");
        if f.may_match(&KEY, q.as_bytes()) {
            fp += 1;
        }
    }
    let ppm = fp as u64 * 1_000_000 / trials as u64;
    assert!(ppm < 12_000, "FP {ppm} ppm is far above the ~3900 ppm target");
}

#[test]
fn gcs_and_bloom_agree_on_membership() {
    let name = deep(6);
    let gcs = GcsFilter::from_name(&KEY, &name);
    let mut bloom = PrefixFilter::new();
    bloom.insert_name(&KEY, &name);
    for d in 1..=5usize {
        let pfx = deep(d);
        let mask = PrefixFilter::mask_for(&KEY, &pfx);
        assert_eq!(
            gcs.may_match(&KEY, &pfx),
            bloom.may_match(&mask),
            "GCS and Bloom disagree on prefix depth {d} (both should admit a true prefix)"
        );
    }
}

/// Three hashes in a range of 768: the values 5, 300 and 300 again code as the
/// gaps 5 and 295.
#[test]
fn values_are_sorted_deduplicated_and_rice_coded() {
    let f = GcsFilter::from_hashes(&vec![300, 5, 768 + 300]);
    assert_eq!(f.n, 3);
    // 5: 0 00000101; 295 = 256 + 39: 1 0 00100111
    assert_eq!(f.bit_len, 19);
    assert_eq!(f.bytes[0], 0b0000_0010);
    assert_eq!(f.bytes[1], 0b1100_0100);
    assert_eq!(f.bytes[2], 0b1110_0000);
    assert_eq!(f.wire_len(), 4);
    assert!(f.holds_hash(5));
    assert!(f.holds_hash(300));
    assert!(f.holds_hash(768 * 7 + 5));
    assert!(!f.holds_hash(6));
    assert!(!f.holds_hash(767));
    assert!(!f.holds_hash(0));
}

#[test]
fn clear_octets_behind_the_code_add_nothing() {
    let name = deep(3);
    let f = GcsFilter::from_name(&KEY, &name);
    let mut wire = [0u8; 40];
    let len = f.to_wire(&mut wire);
    assert_eq!(len, f.wire_len());
    let tight = GcsFilter::from_wire(&wire[..len]);
    let loose = GcsFilter::from_wire(&wire);
    for t in 0..5_000u32 {
        let q = format!("/q/{t:x}");
        let want = f.may_match(&KEY, q.as_bytes());
        assert_eq!(tight.may_match(&KEY, q.as_bytes()), want);
        assert_eq!(loose.may_match(&KEY, q.as_bytes()), want);
    }
}

#[test]
fn an_empty_wire_is_an_empty_filter() {
    let f = GcsFilter::from_wire(&[]);
    assert_eq!(f.n, 0);
    assert!(!f.may_match(&KEY, b"/"));
    // A count without gaps holds nothing either.
    let g = GcsFilter::from_wire(&[3]);
    assert!(!g.may_match(&KEY, b"/"));
    assert_ne!(name_hash(&KEY, b"/"), 0);
}

#[test]
fn every_name_fits_thirteen_octets() {
    for depth in 0..12usize {
        assert!(GcsFilter::from_name(&KEY, &deep(depth)).wire_len() <= 13);
    }
}

#[test]
fn a_filter_answers_alike_under_every_key_after_the_wire() {
    let other = *b"some-other-key!!";
    for depth in 1..=9usize {
        let f = GcsFilter::from_name(&KEY, &deep(depth));
        let mut wire = [0u8; GCS_MAX_BYTES + 1];
        let len = f.to_wire(&mut wire);
        let back = GcsFilter::from_wire(&wire[..len]);
        assert_eq!(back.wire_len(), f.wire_len());
        for key in [KEY, other] {
            for q in 0..300u32 {
                let p = format!("/q{q}");
                let p = p.as_bytes();
                assert_eq!(back.may_match(&key, p), f.may_match(&key, p));
            }
        }
    }
}

#[test]
fn arbitrary_octets_read_as_a_filter_of_their_size() {
    for n in 0..40usize {
        let w: Vec<u8> = (0..n).map(|i| (i * 37 + 11) as u8).collect();
        let f = GcsFilter::from_wire(&w);
        assert_eq!(f.wire_len(), 1 + n.saturating_sub(1).min(24));
        let mut out = [0u8; GCS_MAX_BYTES + 1];
        let len = f.to_wire(&mut out);
        let back = GcsFilter::from_wire(&out[..len]);
        for q in 0..50u32 {
            let p = format!("/q{q}");
            assert_eq!(back.may_match(&KEY, p.as_bytes()), f.may_match(&KEY, p.as_bytes()));
        }
    }
}
