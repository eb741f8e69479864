use ndn_face_wireless::tier1::{probe_spots, Table, Tier1, Verdict};

const KEY: [u8; 16] = *b"ndn/tier1-testk!";
const BITS: usize = 4096;
const K: u32 = 4;

fn t1() -> Tier1 {
    Tier1::new(&KEY, BITS, K)
}

fn has(mirror: &[u8], at: &[usize]) -> bool {
    at.iter().all(|p| mirror[p / 8] & (1 << (p % 8)) != 0)
}

#[test]
fn cs_answers_the_direction_tier0_cannot() {
    let mut t = t1();
    t.cache(b"/a/b/c/d");
    t.sync();
    assert!(t.lookup(b"/a/b").cs, "prefix-seeking Interest missed a cached descendant");
    assert!(t.lookup(b"/a/b/c/d").cs, "exact cached name missed");
    assert!(!t.lookup(b"/z/z").cs, "unrelated name hit the CS");
}

#[test]
fn fib_matches_under_a_registered_prefix() {
    let mut t = t1();
    for i in 0..500u32 {
        t.register_prefix(format!("/ns{i:04x}").as_bytes());
    }
    t.sync();
    assert!(t.lookup(b"/ns0007/x/y").fib, "name under a registered prefix missed");
    assert!(!t.lookup(b"/other/x").fib, "unregistered namespace hit");
}

#[test]
fn sync_never_opens_a_false_negative_window() {
    let mut t = Table::new(&KEY, BITS, K);
    let keep: Vec<Vec<u8>> = (0..40u32).map(|i| format!("/keep{i:03}").into_bytes()).collect();
    let drop: Vec<Vec<u8>> = (0..40u32).map(|i| format!("/drop{i:03}").into_bytes()).collect();
    for n in keep.iter().chain(drop.iter()) {
        t.insert(n);
    }
    t.sync();
    for n in &keep {
        assert!(t.may_contain(n), "setup: keeper not present");
    }

    for n in &drop {
        t.remove(n);
    }
    let probe: Vec<Vec<usize>> = keep.iter().map(|n| t.positions(n)).collect();
    let mut mirror = t.mirror.clone();
    let mut writes = 0u32;
    let mut violations = 0u32;
    for (i, on) in t.sync_observed() {
        if on {
            mirror[i / 8] |= 1 << (i % 8);
        } else {
            mirror[i / 8] &= !(1 << (i % 8));
        }
        writes += 1;
        for pos in &probe {
            if !has(&mirror, pos) {
                violations += 1;
            }
        }
    }
    assert_eq!(mirror, t.mirror, "the writes lead to the published mirror");
    assert!(writes > 0, "sync did nothing: the test would be vacuous");
    assert_eq!(violations, 0, "a keeper became unfindable mid-sync");
    for n in &keep {
        assert!(t.may_contain(n), "keeper lost after sync");
    }
}

#[test]
fn clear_first_would_open_the_window_that_sync_avoids() {
    let mut t = Table::new(&KEY, BITS, K);
    let keep: Vec<Vec<u8>> = (0..40u32).map(|i| format!("/keep{i:03}").into_bytes()).collect();
    let drop: Vec<Vec<u8>> = (0..40u32).map(|i| format!("/drop{i:03}").into_bytes()).collect();
    for n in keep.iter().chain(drop.iter()) {
        t.insert(n);
    }
    t.sync();
    for n in &drop {
        t.remove(n);
    }

    let mut naive = vec![0u8; BITS.div_ceil(8)];
    let mut lost = 0u32;
    for (i, &c) in t.counts.iter().enumerate() {
        if c != 0 {
            naive[i / 8] |= 1 << (i % 8);
        }
        if i == BITS / 2 {
            for n in &keep {
                if !has(&naive, &t.positions(n)) {
                    lost += 1;
                }
            }
        }
    }
    assert!(lost > 0, "the naive rebuild did not lose anyone");
}

#[test]
fn basic_cs_skips_names_a_fib_prefix_already_covers() {
    let mut t = t1();
    t.register_prefix(b"/served");
    t.sync();
    t.cache(b"/served/a/b");
    t.cache(b"/elsewhere/a/b");
    t.sync();
    assert_eq!(t.cs_skipped(), 1, "a FIB-covered name was still inserted into BF-CS");
    assert!(t.lookup(b"/served/a/b").fib);
    assert!(t.lookup(b"/elsewhere").cs, "the non-covered name should be in BF-CS");
}

#[test]
fn a_total_miss_is_reported_as_one() {
    let mut t = t1();
    t.register_prefix(b"/served");
    t.add_pit(b"/asked/for/this");
    t.cache(b"/cached/thing");
    t.sync();
    assert!(t.lookup(b"/nothing/here").is_miss());
    assert!(!t.lookup(b"/served/x").is_miss());
    assert!(!t.lookup(b"/asked/for/this").is_miss());
    assert!(!t.lookup(b"/cached").is_miss());
}

#[test]
fn pit_entries_disappear_when_satisfied() {
    let mut t = t1();
    t.add_pit(b"/i/want/this");
    t.sync();
    assert!(t.lookup(b"/i/want/this").pit);
    t.remove_pit(b"/i/want/this");
    t.sync();
    assert!(!t.lookup(b"/i/want/this").pit, "satisfied PIT entry still matches");
    assert_eq!(t.pit.anomalies(), 0, "counter under/overflow during a legal cycle");
}

#[test]
fn probes_follow_the_two_hashes() {
    assert_eq!(probe_spots(10, 2, 100, 4), vec![10, 13, 16, 19]);
    // u64::MAX ends in 15 modulo 100, and the next probe wraps to zero.
    assert_eq!(probe_spots(u64::MAX, 0, 100, 2), vec![15, 0]);
    assert_eq!(probe_spots(5, 5, 8, 0), Vec::<usize>::new());
}

#[test]
fn a_full_counter_is_reported_and_stays_full() {
    let mut t = Table::new(&KEY, 8, 1);
    for _ in 0..255 {
        t.insert(b"/x");
    }
    assert_eq!(t.anomalies(), 0);
    t.insert(b"/x");
    assert_eq!(t.anomalies(), 1);
    let p = t.positions(b"/x")[0];
    assert_eq!(t.counts[p], 255);
}

#[test]
fn removing_what_was_never_inserted_is_reported() {
    let mut t = Table::new(&KEY, 64, 2);
    t.remove(b"/x");
    assert_eq!(t.anomalies(), 2);
    assert!(t.counts.iter().all(|c| *c == 0));
}

#[test]
fn a_table_has_at_least_eight_bits() {
    let t = Table::new(&KEY, 3, 4);
    assert_eq!(t.counts.len(), 8);
    assert_eq!(t.mirror.len(), 1);
    let u = Table::new(&KEY, 9, 4);
    assert_eq!(u.mirror.len(), 2);
    assert_eq!(u.popcount(), 0);
}

#[test]
fn the_mirror_follows_only_at_sync() {
    let mut t = Table::new(&KEY, BITS, K);
    t.insert(b"/x");
    assert!(!t.may_contain(b"/x"));
    t.sync();
    assert!(t.may_contain(b"/x"));
    let set = t.popcount();
    assert!(set >= 1 && set <= K);
    t.remove(b"/x");
    assert!(t.may_contain(b"/x"));
    t.sync();
    assert!(!t.may_contain(b"/x"));
    assert_eq!(t.popcount(), 0);
}

#[test]
fn a_verdict_is_a_miss_only_when_all_three_miss() {
    for bits in 0..8u8 {
        let v = Verdict {
            fib: bits & 1 != 0,
            pit: bits & 2 != 0,
            cs: bits & 4 != 0,
        };
        assert_eq!(v.is_miss(), bits == 0);
    }
}

#[test]
fn without_basic_cs_every_name_is_cached() {
    let mut t = t1();
    t.basic_cs = false;
    t.register_prefix(b"/served");
    t.sync();
    t.cache(b"/served/a");
    t.sync();
    assert_eq!(t.cs_skipped(), 0);
    assert!(t.lookup(b"/served").cs);
}

const DEEP: &[u8] = b"/a/b/c/d/e/f/g/h/i";

#[test]
fn a_deep_cached_name_answers_for_itself_and_its_prefixes() {
    let mut t = t1();
    t.cache(DEEP);
    t.sync();
    assert!(t.lookup(DEEP).cs, "the name itself");
    assert!(t.lookup(b"/a/b/c/d/e/f/g/h").cs);
    assert!(t.lookup(b"/a/b").cs);
    assert!(t.lookup(b"/").cs);
    assert!(!t.lookup(b"/a/b/c/d/e/f/g/h/j").cs);
}

#[test]
fn a_deep_interest_is_found() {
    let mut t = t1();
    t.add_pit(DEEP);
    t.sync();
    assert!(t.lookup(DEEP).pit);
    assert!(t.lookup(b"/a/b/c/d/e/f/g/h/i/digest").pit, "Data may extend the name");
    assert!(!t.lookup(b"/a/b/c/d/e/f/g/h").pit);
    t.remove_pit(DEEP);
    t.sync();
    assert!(!t.lookup(DEEP).pit);
}

#[test]
fn a_deep_registration_covers_what_is_under_it() {
    let mut t = t1();
    t.register_prefix(DEEP);
    t.sync();
    assert!(t.lookup(b"/a/b/c/d/e/f/g/h/i/j/k").fib);
    assert!(!t.lookup(b"/a/b/c/d/e/f/g/h").fib);
    t.cache(b"/a/b/c/d/e/f/g/h/i/j");
    t.sync();
    assert_eq!(t.cs_skipped(), 1, "covered at that depth, too");
    assert!(t.lookup(b"/a/b/c/d/e/f/g/h/i/j").fib);
}

#[test]
fn a_fresh_table_has_no_name() {
    let t = Table::new(&KEY, BITS, K);
    for n in [b"/".as_slice(), b"/a", DEEP, b""] {
        assert!(!t.may_contain(n));
    }
    assert_eq!(t.popcount(), 0);
    assert!(Table::new(&KEY, BITS, 0).may_contain(b"/a"), "no probe, no evidence against it");
}

#[test]
fn a_removal_undoes_its_insertion() {
    let mut t = Table::new(&KEY, 64, K);
    for n in ["/a", "/b", "/c"] {
        t.insert(n.as_bytes());
    }
    t.sync();
    let (counts, mirror, set) = (t.counts.clone(), t.mirror.clone(), t.popcount());
    t.insert(b"/d");
    assert_eq!(t.anomalies(), 0);
    t.remove(b"/d");
    assert_eq!((&t.counts, &t.mirror, t.anomalies()), (&counts, &mirror, 0));
    t.sync();
    assert_eq!((t.mirror.clone(), t.popcount()), (mirror, set));
}

#[test]
fn names_that_are_still_in_are_found_after_any_history() {
    let mut t = Table::new(&KEY, 256, K);
    let mut live: Vec<u32> = Vec::new();
    let mut x = 12_345u32;
    for _ in 0..400 {
        x = x.wrapping_mul(1_664_525).wrapping_add(1_013_904_223);
        let n = (x >> 16) % 20;
        if x >> 31 == 0 || !live.contains(&n) {
            t.insert(format!("/n{n}").as_bytes());
            live.push(n);
        } else {
            t.remove(format!("/n{n}").as_bytes());
            let at = live.iter().position(|m| *m == n).unwrap();
            live.remove(at);
        }
        if x % 7 == 0 {
            t.sync();
        }
        assert_eq!(t.anomalies(), 0);
    }
    t.sync();
    assert!(!live.is_empty());
    for n in &live {
        assert!(t.may_contain(format!("/n{n}").as_bytes()), "lost /n{n}");
    }
}
