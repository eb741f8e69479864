use ndn_face_wireless::tier0::{
    clamp_prefix, every_prefix, for_each_prefix, name_hash, positions, positions_from, PrefixFilter, FILL_CAP,
    KEY2_DOMAIN, MAX_DEPTH, M_BITS, RESERVED_MASK0,
};

const KEY: [u8; 16] = *b"ndn/tier0-testk!";
const VK: [u8; 16] = *b"ndr/tier0-vec-01";
const WRONG: [u8; 16] = *b"ndr/tier0-vec-02";

fn hex4(v: &mut Vec<u8>, val: u32) {
    for shift in [12, 8, 4, 0] {
        let d = ((val >> shift) & 0xf) as u8;
        v.push(if d < 10 { b'0' + d } else { b'a' + d - 10 });
    }
}

/// `/0000/0001/..` with a varying leaf, so that depth is the only variable.
fn make_name(depth: usize, salt: u32) -> Vec<u8> {
    let mut v = Vec::new();
    for c in 0..depth {
        v.push(b'/');
        hex4(&mut v, if c + 1 == depth { salt } else { c as u32 });
    }
    v
}

/// Every component in a range that `make_name` does not use.
fn make_disjoint_name(depth: usize, salt: u32) -> Vec<u8> {
    let mut v = Vec::new();
    for c in 0..depth {
        v.push(b'/');
        hex4(
            &mut v,
            0x8000 + (c as u32) * 0x100 + if c + 1 == depth { salt & 0xff } else { 0 },
        );
    }
    v
}

fn deep_name(depth: usize) -> Vec<u8> {
    let mut n = Vec::new();
    for i in 0..depth {
        n.push(b'/');
        n.extend_from_slice(format!("c{i}").as_bytes());
    }
    n
}

#[test]
fn prefixes_root_first_and_capped() {
    let seen = for_each_prefix(b"/A/b/c");
    assert_eq!(
        seen,
        vec![
            b"/".to_vec(),
            b"/A".to_vec(),
            b"/A/b".to_vec(),
            b"/A/b/c".to_vec()
        ]
    );

    let deep = b"/a/b/c/d/e/f/g/h/i/j";
    let listed = for_each_prefix(deep);
    assert_eq!(listed.len(), MAX_DEPTH);
    assert_eq!(listed[listed.len() - 1], b"/a/b/c/d/e/f/g".to_vec());
}

#[test]
fn no_false_negatives_every_genuine_ancestor_matches() {
    for depth in 1..=12usize {
        for salt in 0..500u32 {
            let name = make_name(depth, 0xABCD ^ salt);
            let mut f = PrefixFilter::new();
            f.insert_name(&KEY, &name);
            for pfx in for_each_prefix(&name) {
                let mask = PrefixFilter::mask_for(&KEY, &pfx);
                assert!(
                    f.may_match(&mask),
                    "false negative at depth {depth} salt {salt} prefix {:?}",
                    std::str::from_utf8(&pfx).unwrap_or("<bin>")
                );
            }
        }
    }
}

#[test]
fn deep_registration_clamps_no_false_negative() {
    let name = b"/a/b/c/d/e/f/g/h/i/j/k";
    let mut f = PrefixFilter::new();
    f.insert_name(&KEY, name);
    let reg = b"/a/b/c/d/e/f/g/h/i/j";
    let mask = PrefixFilter::mask_for(&KEY, reg);
    assert!(f.may_match(&mask), "clamp failed, a false negative");
}

#[test]
fn false_positive_rate_matches_measured_curve() {
    const TRIALS: u32 = 20_000;
    const R: u32 = 12;
    for &(depth, exp_bits) in &[(2usize, 12u32), (4, 20), (6, 26), (8, 34)] {
        let mut fp = 0u32;
        let mut trials = 0u32;
        for r in 0..R {
            let name = make_name(depth, 0x1000 + r * 0x111);
            let mut f = PrefixFilter::new();
            f.insert_name(&KEY, &name);
            if r == 0 {
                assert_eq!(f.popcount(), exp_bits, "bits set drifted at depth {depth}");
            }
            let per = TRIALS / R;
            for t in 0..per {
                let other = make_disjoint_name(1 + (t as usize % depth.max(1)), r * TRIALS + t);
                if f.may_match(&PrefixFilter::mask_for(&KEY, &other)) {
                    fp += 1;
                }
            }
            trials += per;
        }
        let ppm = (fp as u64) * 1_000_000 / trials as u64;
        assert!(
            ppm <= 15_000,
            "FP at depth {depth} = {ppm} ppm exceeds the expected regime"
        );
    }
}

#[test]
fn keying_hides_a_private_group() {
    let name = make_name(6, 0x1234);
    let mut f = PrefixFilter::new();
    f.insert_name(&KEY, &name);

    const TRIALS: u32 = 20_000;
    let mut matched = 0u32;
    for t in 0..TRIALS {
        let mut wrong = KEY;
        wrong[0] ^= (t & 0xff) as u8;
        wrong[1] ^= ((t >> 8) & 0xff) as u8;
        wrong[2] ^= 0xA5;
        if f.may_match(&PrefixFilter::mask_for(&wrong, &name)) {
            matched += 1;
        }
    }
    let ppm = (matched as u64) * 1_000_000 / TRIALS as u64;
    assert!(
        ppm <= 20_000,
        "wrong-key match rate {ppm} ppm is above the false-positive floor"
    );
}

#[test]
fn wire_round_trip_sets_reserved_bits() {
    let name = make_name(4, 7);
    let mut f = PrefixFilter::new();
    f.insert_name(&KEY, &name);
    let wire = f.to_wire();
    assert_eq!(wire[0] & RESERVED_MASK0, 0b0000_0011, "I/G+U/L not local-group");
    let back = PrefixFilter::from_wire(wire);
    for pfx in for_each_prefix(&name) {
        assert!(back.may_match(&PrefixFilter::mask_for(&KEY, &pfx)));
    }
}

#[test]
fn an_all_ones_filter_matches_nothing() {
    let key = [7u8; 16];
    let mut mask = PrefixFilter::default();
    mask.insert_name(&key, b"/ndn/alarm");
    assert!(mask.popcount() > 0, "fixture: the mask has bits to match");

    let mut all_ones = PrefixFilter::default();
    for p in 0..M_BITS as u8 {
        all_ones.set_bit(p);
    }
    assert!(all_ones.popcount() > FILL_CAP);
    assert!(!all_ones.may_match(&mask), "a saturated filter must be inert");
}

#[test]
fn a_legitimate_deep_name_is_still_admitted() {
    let key = [3u8; 16];
    let deep = b"/a/b/c/d/e/f/g/h".as_slice();
    let mut f = PrefixFilter::default();
    f.insert_name(&key, deep);
    assert!(
        f.popcount() <= FILL_CAP,
        "a legitimate depth-{MAX_DEPTH} name filled {} bits, over the {FILL_CAP} cap",
        f.popcount()
    );
    let mut mask = PrefixFilter::default();
    mask.insert_name(&key, deep);
    assert!(f.may_match(&mask), "and it must still match its own mask");
}

#[test]
fn the_cap_boundary_is_exact() {
    let key = [1u8; 16];
    let mut mask = PrefixFilter::default();
    mask.insert_name(&key, b"/x");

    let mut at_cap = mask;
    let mut p = 0u8;
    while at_cap.popcount() < FILL_CAP && (p as u32) < M_BITS {
        at_cap.set_bit(p);
        p += 1;
    }
    assert_eq!(at_cap.popcount(), FILL_CAP);
    assert!(at_cap.may_match(&mask), "exactly at the cap is admissible");

    let mut over = at_cap;
    while over.popcount() == FILL_CAP && (p as u32) < M_BITS {
        over.set_bit(p);
        p += 1;
    }
    assert_eq!(over.popcount(), FILL_CAP + 1);
    assert!(!over.may_match(&mask), "one bit over the cap is rejected");
}

#[test]
fn the_vectors_encode_the_properties_they_exist_to_pin() {
    let (mut d8, mut d12) = (PrefixFilter::default(), PrefixFilter::default());
    d8.insert_name(&VK, &deep_name(8));
    d12.insert_name(&VK, &deep_name(12));
    let mask8 = PrefixFilter::mask_for(&VK, &deep_name(8));
    assert!(d12.may_match(&mask8), "a depth-12 name must still match its depth-8 prefix mask");

    let right = PrefixFilter::mask_for(&VK, b"/ndn/alarm");
    let mut wrong = PrefixFilter::default();
    wrong.insert_name(&WRONG, b"/ndn/alarm");
    assert!(
        !wrong.may_match(&right),
        "the same name under a different group key must not match"
    );

    assert_eq!(d8.popcount(), 33);
    assert!(d8.popcount() <= FILL_CAP, "and every legitimate shape stays under the cap");
}

/// The reference vector of SipHash-2-4: fifteen bytes under the key 00..0f.
#[test]
fn name_hash_is_siphash_2_4() {
    let mut key = [0u8; 16];
    for (i, b) in key.iter_mut().enumerate() {
        *b = i as u8;
    }
    let data: Vec<u8> = (0..15u8).collect();
    assert_eq!(name_hash(&key, &data), 0xa129_ca61_49be_45e5);
}

#[test]
fn positions_follow_the_two_hashes() {
    assert_eq!(positions_from(0, 0), [0, 1, 2, 3]);
    assert_eq!(positions_from(125, 2), [125, 2, 5, 8]);
    // The high halves take no part.
    assert_eq!(positions_from(0xffff_ffff_0000_0007, 0xaaaa_aaaa_0000_0001), [7, 8, 9, 10]);
    // The sum wraps at 32 bits: 0xffffffff % 126 == 3, then 0, 1, 2.
    assert_eq!(positions_from(0xffff_ffff, 1), [3, 0, 1, 2]);

    let mut key2 = KEY;
    for (b, d) in key2.iter_mut().zip(KEY2_DOMAIN.iter()) {
        *b ^= *d;
    }
    let h1 = name_hash(&KEY, b"/x");
    let h2 = name_hash(&key2, b"/x");
    assert_ne!(h1, h2);
    assert_eq!(positions(&KEY, b"/x"), positions_from(h1, h2));
    assert_eq!(&KEY2_DOMAIN, b"ndn/tier0-h2\0\0\0\0");
}

#[test]
fn clamping_keeps_seven_components() {
    assert_eq!(clamp_prefix(b""), 0);
    assert_eq!(clamp_prefix(b"/"), 1);
    assert_eq!(clamp_prefix(b"/a/b/c/d/e/f/g"), 14);
    assert_eq!(clamp_prefix(b"/a/b/c/d/e/f/g/h"), 14);
    assert_eq!(clamp_prefix(b"/a/b/c/d/e/f/g/h/i"), 14);
    // The first byte never separates, whatever it is.
    assert_eq!(clamp_prefix(b"a/b"), 3);
}

#[test]
fn prefixes_of_odd_names() {
    assert_eq!(for_each_prefix(b""), vec![b"/".to_vec()]);
    assert_eq!(for_each_prefix(b"/"), vec![b"/".to_vec(), b"/".to_vec()]);
    assert_eq!(
        for_each_prefix(b"a/b"),
        vec![b"/".to_vec(), b"a".to_vec(), b"a/b".to_vec()]
    );
    assert_eq!(for_each_prefix(b"/a/b/c/d/e/f/g/h").len(), MAX_DEPTH + 1);
}

#[test]
fn set_and_get_bit_agree_and_spare_the_reserved_bits() {
    let mut f = PrefixFilter::new();
    f.set_bit(0);
    assert_eq!(f.0[0], 0b0000_0100);
    f.set_bit(125);
    assert_eq!(f.0[15], 0b1000_0000);
    assert!(f.get_bit(0) && f.get_bit(125) && !f.get_bit(1));
    assert_eq!(f.popcount(), 2);
    f.set_bit(0);
    assert_eq!(f.popcount(), 2);
    assert_eq!(f.to_wire()[0], 0b0000_0111);
    assert_eq!(PrefixFilter::from_wire(f.to_wire()).popcount(), 2);
}

#[test]
fn neighbouring_positions_differ_in_parity() {
    for (h1, h2) in [(0u64, 0u64), (u64::MAX, u64::MAX), (7, 0xffff_ffff), (0x1234_5678, 0x9abc)] {
        let p = positions_from(h1, h2);
        for i in 0..3 {
            assert_ne!(p[i] % 2, p[i + 1] % 2, "positions {i} and {} of {p:?}", i + 1);
        }
    }
}

#[test]
fn every_prefix_goes_all_the_way_down() {
    let shown = |v: Vec<Vec<u8>>| -> Vec<String> {
        v.into_iter().map(|p| String::from_utf8(p).unwrap()).collect()
    };
    assert_eq!(shown(every_prefix(b"/A/b/c")), ["/", "/A", "/A/b", "/A/b/c"]);
    assert_eq!(every_prefix(b"/A/b/c"), for_each_prefix(b"/A/b/c"));
    let deep = every_prefix(b"/a/b/c/d/e/f/g/h/i");
    assert_eq!(deep.len(), 10);
    assert_eq!(deep[9], b"/a/b/c/d/e/f/g/h/i");
    assert_eq!(for_each_prefix(b"/a/b/c/d/e/f/g/h/i").len(), 8, "the in-frame filter is capped");
    assert_eq!(shown(every_prefix(b"")), ["/"]);
}
