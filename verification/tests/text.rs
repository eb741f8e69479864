use ndn_face_wireless::groups::{prefix_components, prefix_covers, GroupTable, LeaseClass};
use ndn_face_wireless::octets::{read_little_endian, saturating_product, write_little_endian};
use ndn_face_wireless::text::{
    chars_of, find_char, find_last, find_pattern, parse_floor, parse_i8, parse_octet_list,
    parse_unsigned, same_text, space, split_once, text_part, trim, word, Rounded,
};
use ndn_face_wireless::tier0::PrefixFilter;

fn chars(s: &str) -> Vec<char> {
    chars_of(s)
}

#[test]
fn numbers_are_read_as_a_whole() {
    let n = |s: &str| parse_unsigned(&chars(s), 255);
    assert_eq!((n("0"), n("255"), n("+7"), n("007")), (Some(0), Some(255), Some(7), Some(7)));
    assert_eq!((n("256"), n(""), n("+"), n("-1"), n("1 "), n("1a")), (None, None, None, None, None, None));
    assert_eq!(parse_unsigned(&chars("18446744073709551615"), u64::MAX), Some(u64::MAX));
    assert_eq!(parse_unsigned(&chars("18446744073709551616"), u64::MAX), None);
    let i = |s: &str| parse_i8(&chars(s));
    assert_eq!((i("-128"), i("127"), i("+5"), i("128"), i("-")), (Some(-128), Some(127), Some(5), None, None));
}

#[test]
fn decimals_are_rounded_down() {
    let f = |s: &str| parse_floor(&chars(s)).map(|r| r.octet());
    assert_eq!((f("27.00"), f("20.9"), f("-3.5"), f("-3.0")), (Some(27), Some(20), Some(-4), Some(-3)));
    assert_eq!((f("200"), f("-200.5"), f("7"), f("x")), (Some(127), Some(-128), Some(7), None));
    assert_eq!((f("7."), f(".5"), f("-.5"), f("+2")), (Some(7), Some(0), Some(-1), Some(2)));
    assert_eq!((f("."), f(""), f("+"), f("--1"), f("1.2.3")), (None, None, None, None, None));
}

#[test]
fn decimals_may_have_an_exponent() {
    let f = |s: &str| parse_floor(&chars(s)).map(|r| r.octet());
    assert_eq!((f("2e1"), f("2E1"), f("+2.5e+1"), f("-25e-1")), (Some(20), Some(20), Some(25), Some(-3)));
    assert_eq!((f("1234e-2"), f("1.27e2"), f("1.28e2"), f("-1.281e2")), (Some(12), Some(127), Some(127), Some(-128)));
    assert_eq!((f("0.001e3"), f("0.02e3"), f("100e-2"), f("-100e-2")), (Some(1), Some(20), Some(1), Some(-1)));
    assert_eq!((f("1e99999999999999999999"), f("-1e99999999999999999999")), (Some(127), Some(-128)));
    assert_eq!((f("1e-99999999999999999999"), f("0e99999999999999999999")), (Some(0), Some(0)));
    assert_eq!((f("5e00"), f(".5e1"), f("5.e1"), f("3e0")), (Some(5), Some(5), Some(50), Some(3)));
    assert_eq!((f("2e"), f("2e+"), f("e1"), f(".e1"), f("2e1.0")), (None, None, None, None, None));
    assert_eq!((f("2e1e1"), f("2 e1"), f("2e 1")), (None, None, None));
    // On plain numbers it agrees with what a float of the text gives.
    for s in ["2e1", "19.5", "-7.25e0", "1.5e1", "250e-1", "-0.5", "1e2", "4e-1", "-99.75", "12.5E+0"] {
        let v: f32 = s.parse().unwrap();
        assert_eq!(f(s), Some(v.floor() as i8), "{s}");
    }
}

#[test]
fn words_for_numbers_are_read() {
    let f = |s: &str| parse_floor(&chars(s));
    for s in ["inf", "INF", "+Inf", "infinity", "InFiNiTy"] {
        assert_eq!(f(s), Some(Rounded::Whole(127)), "{s}");
        assert_eq!(s.parse::<f32>().unwrap().floor() as i8, 127);
    }
    assert_eq!((f("-inf"), f("-Infinity")), (Some(Rounded::Whole(-128)), Some(Rounded::Whole(-128))));
    for s in ["nan", "NaN", "-nan", "+NAN"] {
        assert_eq!(f(s), Some(Rounded::NotANumber), "{s}");
        assert_eq!(f(s).unwrap().octet(), s.parse::<f32>().unwrap().floor() as i8);
    }
    assert_eq!((f("in"), f("infinit"), f("nano"), f("inf "), f("++inf")), (None, None, None, None, None));
}

#[test]
fn texts_are_cut_and_compared() {
    assert_eq!(trim(&chars(" \t a b\n")), &['a', ' ', 'b']);
    assert!(trim(&chars("  ")).is_empty());
    let kv = chars("a=b=c");
    assert_eq!(split_once(&kv, '='), Some((&['a'][..], &['b', '=', 'c'][..])));
    assert_eq!(split_once(&kv, ';'), None);
    assert_eq!(find_char(&kv, '=', 2), 3);
    assert_eq!(find_char(&kv, ';', 0), 5);
    assert_eq!(parse_octet_list(&chars("1, 6,x,,11"), ','), vec![1, 6, 11]);
    assert!(same_text(&chars("cv"), "cv") && !same_text(&chars("cv"), "cvx"));
    assert!(!same_text(&chars("cx"), "cv"));
    assert_eq!(word(&chars("  27 dBm")), &['2', '7']);
    assert_eq!(find_pattern(&chars("abcabc"), &['b', 'c'], 2), Some(4));
    assert_eq!(find_pattern(&chars("abc"), &['x'], 0), None);
    assert_eq!(find_last(&chars("a(b(c"), '(', 5), Some(3));
    assert_eq!(find_last(&chars("a(b(c"), '(', 1), None);
    assert_eq!(text_part("grün und blau", 5, 8), "und");
    assert!(space('\u{2003}') && space('\t') && !space('x'));
}

#[test]
fn octets_go_there_and_back() {
    assert_eq!(read_little_endian(&[1, 2, 3]), 0x03_0201);
    assert_eq!(read_little_endian(&[]), 0);
    assert_eq!(write_little_endian(0x0102), vec![2, 1, 0, 0, 0, 0, 0, 0]);
    for v in [0u64, 1, 0xdead_beef, u64::MAX] {
        assert_eq!(read_little_endian(&write_little_endian(v)), v);
    }
    assert_eq!(saturating_product(1 << 40, 1 << 40), u64::MAX);
    assert_eq!(saturating_product(3, 5), 15);
}

#[test]
fn prefixes_cover_whole_components() {
    assert!(prefix_covers(b"/a/b", b"/a/b"));
    assert!(prefix_covers(b"/a/b", b"/a/b/c"));
    assert!(!prefix_covers(b"/a/b", b"/a/bc"));
    assert!(!prefix_covers(b"/a/b", b"/a"));
    assert_eq!(prefix_components(b"/a//b/"), vec![b"a".to_vec(), b"b".to_vec()]);
}

#[test]
fn the_longest_registered_prefix_keys_a_name() {
    let key = [5u8; 16];
    let names = vec![b"/a".to_vec(), b"/a/b/c".to_vec(), b"/a/b".to_vec()];
    let t = GroupTable::new(&key, &names, &vec![1, 3, 2]).with_latency(&vec![b"/a/b".to_vec()]);
    assert_eq!(t.len(), 3);
    assert_eq!(t.hash_for_name(b"/a/b/c/d"), Some((3, LeaseClass::Bulk)));
    assert_eq!(t.hash_for_name(b"/a/b/x"), Some((2, LeaseClass::Latency)));
    assert_eq!(t.hash_for_name(b"/a/x"), Some((1, LeaseClass::Bulk)));
    assert_eq!(t.hash_for_name(b"/z"), None);
    for n in [&b"/a/b/c/d"[..], b"/a/b/x", b"/a/x"] {
        let mut f = PrefixFilter::new();
        f.insert_name(&key, n);
        assert_eq!(t.hash_for_filter(&f), t.hash_for_name(n));
    }
    assert_eq!(t.hash_for_filter(&PrefixFilter::new()), None);
}
