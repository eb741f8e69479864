use ndn_face_wireless::dbm_power::{
    applied_dbm, driver_knob, needs_retune, parse_iw_channel, parse_iw_phy_max_dbm,
    parse_iw_txpower, parse_leading_i8, DbmRange, Mac80211Knobs, Mechanism, PowerWrite,
    DRIVER_KNOBS,
};

#[test]
fn parses_debugfs_readback() {
    assert_eq!(parse_leading_i8("27\n"), Some(27));
    assert_eq!(parse_leading_i8("5"), Some(5));
    assert_eq!(parse_leading_i8("-3\n"), Some(-3));
    assert_eq!(parse_leading_i8("garbage"), None);
}

#[test]
fn a_readback_stops_at_its_number() {
    assert_eq!(parse_leading_i8("  14 dBm"), Some(14));
    assert_eq!(parse_leading_i8("20.5"), Some(20));
    assert_eq!(parse_leading_i8("127"), Some(127));
    assert_eq!(parse_leading_i8("128"), None);
    assert_eq!(parse_leading_i8("-128"), Some(-128));
    assert_eq!(parse_leading_i8(""), None);
    assert_eq!(parse_leading_i8("-"), None);
}

#[test]
fn parses_phy_regulatory_ceiling() {
    let text = "\
Wiphy phy0
	Band 1:
		* 2412 MHz [1] (20.0 dBm)
		* 2417 MHz [2] (20.0 dBm)
		* 2432 MHz [5] (30.0 dBm)
		* 2437 MHz [6] (disabled)";
    assert_eq!(parse_iw_phy_max_dbm(text), Some(30));
}

#[test]
fn the_ceiling_is_the_highest_that_is_stated() {
    let text = "* 2432 MHz [5] (30.0 dBm)\n* 2412 MHz [1] (20.5 dBm)\n";
    assert_eq!(parse_iw_phy_max_dbm(text), Some(30));
    assert_eq!(parse_iw_phy_max_dbm("(-3.5 dBm)"), Some(-4));
    assert_eq!(parse_iw_phy_max_dbm("max 14 dBm, no bracket"), None);
}

#[test]
fn a_ceiling_may_have_an_exponent_or_be_a_word() {
    assert_eq!(parse_iw_phy_max_dbm("(2e1 dBm)\n(19.5 dBm)"), Some(20));
    assert_eq!(parse_iw_phy_max_dbm("(20.0 dBm)\n(inf dBm)"), Some(127));
    assert_eq!(parse_iw_phy_max_dbm("(-inf dBm)\n(3 dBm)"), Some(3));
    // What is no number is neither above nor below anything: the first one stands.
    assert_eq!(parse_iw_phy_max_dbm("(20.0 dBm)\n(nan dBm)\n(30.0 dBm)"), Some(30));
    assert_eq!(parse_iw_phy_max_dbm("(NaN dBm)\n(30.0 dBm)"), Some(0));
    assert_eq!(parse_iw_txpower("txpower 2e1 dBm"), Some(20));
    assert_eq!(parse_iw_txpower("txpower -inf dBm"), Some(-128));
    assert_eq!(parse_iw_txpower("txpower nan dBm"), Some(0));
    assert_eq!(parse_iw_txpower("txpower 2e dBm"), None);
}

#[test]
fn no_ceiling_means_no_claim() {
    assert_eq!(parse_iw_phy_max_dbm("Wiphy phy0\n\tBand 1:\n"), None);
}

#[test]
fn parses_iface_txpower_and_channel() {
    let text = "\
Interface mon0
	type monitor
	channel 5 (2432 MHz), width: 20 MHz
	txpower 27.00 dBm";
    assert_eq!(parse_iw_txpower(text), Some(27));
    assert_eq!(parse_iw_channel(text), Some(5));
    assert_eq!(parse_iw_txpower("Interface mon0"), None);
    assert_eq!(parse_iw_channel("Interface mon0"), None);
    assert_eq!(parse_iw_channel("channel 300"), None);
}

#[test]
fn requests_are_clamped_into_the_advertised_range() {
    let r = DbmRange::new(1, 30);
    assert_eq!(r.clamp(45), 30);
    assert_eq!(r.clamp(0), 1);
    assert_eq!(r.clamp(14), 14);
    assert_eq!(r.span_db(), 29);
}

#[test]
fn unknown_radio_rejects_dbm_rather_than_pretending() {
    let k = Mac80211Knobs { mechanism: Mechanism::Absent, range: None };
    assert!(k.tx_power_range().is_none());
    assert!(k.set_tx_power_dbm(10).is_none());
    assert_eq!(k.mechanism_name(), "none");
}

#[test]
fn discovery_on_a_missing_interface_is_inert() {
    let k = Mac80211Knobs::discover(None, None);
    assert!(k.tx_power_range().is_none());
    assert!(k.set_tx_power_dbm(10).is_none());
}

#[test]
fn a_drivers_own_knob_goes_first() {
    let k = Mac80211Knobs::discover(Some(0), Some(20));
    assert_eq!(k.tx_power_range(), Some(DbmRange { min: 1, max: 30 }));
    assert_eq!(k.set_tx_power_dbm(45), Some(PowerWrite::Knob(0, 30)));
    assert_eq!(k.mechanism_name(), "Morse Micro MM6108");
    assert_eq!(driver_knob(0).file, "tx_power_dbm");

    let k = Mac80211Knobs::discover(Some(1), None);
    assert_eq!(k.set_tx_power_dbm(-5), Some(PowerWrite::Knob(1, 1)));
    assert_eq!(k.mechanism_name(), "Newracom NRC7292");
    assert_eq!(driver_knob(DRIVER_KNOBS - 1).file, "nrc_txpower");

    let k = Mac80211Knobs::discover(None, Some(20));
    assert_eq!(k.set_tx_power_dbm(14), Some(PowerWrite::Nl80211(14, 1400)));
    assert_eq!(k.set_tx_power_dbm(33), Some(PowerWrite::Nl80211(20, 2000)));
    assert_eq!(k.mechanism_name(), "nl80211");
}

#[test]
fn what_the_radio_reports_stands() {
    assert_eq!(applied_dbm(Some(27), 30), 27);
    assert_eq!(applied_dbm(None, 30), 30);
    assert!(!needs_retune(Some(5), 5));
    assert!(needs_retune(Some(5), 6));
    assert!(needs_retune(None, 5));
}
