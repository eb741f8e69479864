use ndn_face_wireless::factory::{
    build_bearer, parse_spec, parse_specs, BearerPlan, RadioSpec, SpecError,
};

fn opt(k: &str, v: &str) -> (String, String) {
    (k.to_string(), v.to_string())
}

#[test]
fn parses_a_multi_capability_medium() {
    let opts = vec![
        opt("radio", "rtl8822e;channel=149;tx-power=40"),
        opt("radio", "halow;iface=halow0;channel=161"),
    ];
    let specs = parse_specs(&opts, &None).unwrap();
    assert_eq!(specs.len(), 2);
    assert_eq!(specs[0].driver, "rtl8822e");
    assert_eq!(specs[0].channel, Some(149));
    assert_eq!(specs[0].tx_power, Some(40));
    assert_eq!(specs[1].driver, "halow");
    assert_eq!(specs[1].iface.as_deref(), Some("halow0"));
}

#[test]
fn remote_is_a_lone_radio_shorthand() {
    let specs = parse_specs(&vec![], &Some("loopback;channel=149".to_string())).unwrap();
    assert_eq!(specs.len(), 1);
    assert_eq!(specs[0].driver, "loopback");
}

#[test]
fn empty_params_are_rejected() {
    assert!(matches!(parse_specs(&vec![], &None), Err(SpecError::NoRadio)));
    assert!(matches!(parse_specs(&vec![opt("mtu", "9")], &None), Err(SpecError::NoRadio)));
}

#[test]
fn radio_options_go_before_the_remote() {
    let opts = vec![opt("speed", "fast"), opt("radio", "loopback")];
    let specs = parse_specs(&opts, &Some("halow;iface=h0".to_string())).unwrap();
    assert_eq!(specs.len(), 1);
    assert_eq!(specs[0].driver, "loopback");
}

#[test]
fn blanks_and_repeats_are_taken() {
    let s = parse_spec(" halow ; iface = h0 ;; channel=1;channel= 2 ").unwrap();
    assert_eq!(s.driver, "halow");
    assert_eq!(s.iface.as_deref(), Some("h0"));
    assert_eq!(s.channel, Some(2));
    assert_eq!(s.tx_power, None);
    let s = parse_spec("af-packet;iface=a=b").unwrap();
    assert_eq!(s.iface.as_deref(), Some("a=b"));
}

#[test]
fn every_fault_has_its_error() {
    assert!(matches!(parse_spec(""), Err(SpecError::NoDriver)));
    assert!(matches!(parse_spec(" ;channel=1"), Err(SpecError::NoDriver)));
    match parse_spec("halow; fast ") {
        Err(SpecError::NotKeyValue(kv)) => assert_eq!(kv, "fast"),
        r => panic!("{r:?}"),
    }
    assert!(matches!(parse_spec("x;channel=256"), Err(SpecError::BadChannel)));
    assert!(matches!(parse_spec("x;channel="), Err(SpecError::BadChannel)));
    assert!(matches!(parse_spec("x;tx-power=-1"), Err(SpecError::BadTxPower)));
    match parse_spec("halow; colour =red") {
        Err(SpecError::UnknownOption(k)) => assert_eq!(k, "colour"),
        r => panic!("{r:?}"),
    }
    let opts = vec![opt("radio", "loopback"), opt("radio", "x;channel=no")];
    assert!(matches!(parse_specs(&opts, &None), Err(SpecError::BadChannel)));
    assert!(matches!(
        parse_specs(&vec![], &Some(String::new())),
        Err(SpecError::NoDriver)
    ));
}

fn spec(driver: &str, channel: Option<u8>, iface: Option<&str>) -> RadioSpec {
    RadioSpec {
        driver: driver.to_string(),
        channel,
        iface: iface.map(|s| s.to_string()),
        tx_power: None,
    }
}

#[test]
fn a_driver_says_how_a_radio_comes_up() {
    assert_eq!(build_bearer(&spec("loopback", None, None)), BearerPlan::Loopback);
    assert_eq!(build_bearer(&spec("rtl8822e", Some(149), None)), BearerPlan::Usb(149));
    assert_eq!(build_bearer(&spec("rtl8822e", None, Some("w0"))), BearerPlan::ChannelMissing);
    assert_eq!(build_bearer(&spec("af-packet", None, Some("w0"))), BearerPlan::Packet);
    assert_eq!(build_bearer(&spec("halow", None, Some("w0"))), BearerPlan::Halow);
    assert_eq!(build_bearer(&spec("halow", Some(1), None)), BearerPlan::IfaceMissing);
    assert_eq!(build_bearer(&spec("af-packet", Some(1), None)), BearerPlan::IfaceMissing);
    assert_eq!(build_bearer(&spec("warp", Some(1), Some("w0"))), BearerPlan::UnknownDriver);
}
