//! A medium's radios out of text: `driver[;channel=N][;iface=NAME][;tx-power=N]`.

use vstd::prelude::*;

use crate::text;
use crate::text::{chars_of, find_char, parse_unsigned, same_text, text_part, trim_bounds};

verus! {

/// A radio that a text asks for.
#[derive(Debug)]
pub struct RadioSpec {
    /// The driver's name.
    pub driver: String,
    /// The channel.
    pub channel: Option<u8>,
    /// The network interface.
    pub iface: Option<String>,
    /// The power index.
    pub tx_power: Option<u8>,
}

/// A radio that a text asks for, as a value.
pub struct SpecView {
    /// The driver's name.
    pub driver: Seq<char>,
    /// The channel.
    pub channel: Option<u8>,
    /// The network interface.
    pub iface: Option<Seq<char>>,
    /// The power index.
    pub tx_power: Option<u8>,
}

impl View for RadioSpec {
    type V = SpecView;

    open spec fn view(&self) -> SpecView {
        SpecView {
            driver: self.driver@,
            channel: self.channel,
            iface: match self.iface {
                Some(s) => Some(s@),
                None => None,
            },
            tx_power: self.tx_power,
        }
    }
}

/// Why a text asks for no radio.
#[derive(Debug)]
pub enum SpecError {
    /// The driver is missing.
    NoDriver,
    /// An option is not `key=value`.
    NotKeyValue(String),
    /// The channel is no number.
    BadChannel,
    /// The power is no number.
    BadTxPower,
    /// An option is not known.
    UnknownOption(String),
    /// No radio is asked for.
    NoRadio,
}

/// Why a text asks for no radio, as a value.
pub enum SpecFault {
    /// The driver is missing.
    NoDriver,
    /// An option is not `key=value`.
    NotKeyValue(Seq<char>),
    /// The channel is no number.
    BadChannel,
    /// The power is no number.
    BadTxPower,
    /// An option is not known.
    UnknownOption(Seq<char>),
    /// No radio is asked for.
    NoRadio,
}

impl View for SpecError {
    type V = SpecFault;

    open spec fn view(&self) -> SpecFault {
        match self {
            SpecError::NoDriver => SpecFault::NoDriver,
            SpecError::NotKeyValue(s) => SpecFault::NotKeyValue(s@),
            SpecError::BadChannel => SpecFault::BadChannel,
            SpecError::BadTxPower => SpecFault::BadTxPower,
            SpecError::UnknownOption(s) => SpecFault::UnknownOption(s@),
            SpecError::NoRadio => SpecFault::NoRadio,
        }
    }
}

/// The radio after one option. An empty option says nothing; a later option of the
/// same kind overrules an earlier one.
pub open spec fn option_read(spec: SpecView, piece: Seq<char>) -> Result<SpecView, SpecFault> {
    let kv = text::trimmed(piece);
    if kv.len() == 0 {
        Ok(spec)
    } else {
        match text::parted(kv, '=') {
            None => Err(SpecFault::NotKeyValue(kv)),
            Some((k, v)) => {
                let key = text::trimmed(k);
                let value = text::trimmed(v);
                if key == "channel"@ {
                    match text::unsigned(value, 255) {
                        Some(n) => Ok(SpecView { channel: Some(n as u8), ..spec }),
                        None => Err(SpecFault::BadChannel),
                    }
                } else if key == "iface"@ {
                    Ok(SpecView { iface: Some(value), ..spec })
                } else if key == "tx-power"@ {
                    match text::unsigned(value, 255) {
                        Some(n) => Ok(SpecView { tx_power: Some(n as u8), ..spec }),
                        None => Err(SpecFault::BadTxPower),
                    }
                } else {
                    Err(SpecFault::UnknownOption(key))
                }
            },
        }
    }
}

/// The radio after these options, or the first fault among them.
pub open spec fn options_read(spec: SpecView, list: Seq<Seq<char>>) -> Result<SpecView, SpecFault>
    decreases list.len(),
{
    if list.len() == 0 {
        Ok(spec)
    } else {
        match option_read(spec, list[0]) {
            Ok(next) => options_read(next, list.skip(1)),
            Err(e) => Err(e),
        }
    }
}

/// What a text asks for.
pub open spec fn spec_read(s: Seq<char>) -> Result<SpecView, SpecFault> {
    let list = text::pieces(s, ';');
    let driver = text::trimmed(list[0]);
    if driver.len() == 0 {
        Err(SpecFault::NoDriver)
    } else {
        options_read(
            SpecView { driver, channel: None, iface: None, tx_power: None },
            list.skip(1),
        )
    }
}

/// The result holds what the specification says, value for value.
pub open spec fn same_result(r: Result<RadioSpec, SpecError>, v: Result<SpecView, SpecFault>) -> bool {
    match (r, v) {
        (Ok(a), Ok(b)) => a@ == b,
        (Err(a), Err(b)) => a@ == b,
        _ => false,
    }
}

/// Reads one option, which stands between `from` and `to`.
fn read_option(s: &str, chars: &Vec<char>, from: usize, to: usize, spec: RadioSpec) -> (r: Result<
    RadioSpec,
    SpecError,
>)
    requires
        chars@ == s@,
        from <= to <= chars.len(),
    ensures
        same_result(r, option_read(spec@, s@.subrange(from as int, to as int))),
{
    let all: &[char] = chars.as_slice();
    let (a, b): (usize, usize) = trim_bounds(all, from, to);
    let ghost kv = s@.subrange(a as int, b as int);
    if a == b {
        return Ok(spec);
    }
    let part: &[char] = vstd::slice::slice_subrange(all, a, b);
    assert(part@ =~= kv);
    let eq: usize = find_char(part, '=', 0);
    if eq >= part.len() {
        return Err(SpecError::NotKeyValue(text_part(s, a, b)));
    }
    let (ka, kb): (usize, usize) = trim_bounds(all, a, a + eq);
    let (va, vb): (usize, usize) = trim_bounds(all, a + eq + 1, b);
    proof {
        assert(s@.subrange(a as int, a + eq) =~= kv.take(eq as int));
        assert(s@.subrange(a + eq + 1, b as int) =~= kv.skip(eq as int + 1));
    }
    let key: &[char] = vstd::slice::slice_subrange(all, ka, kb);
    let value: &[char] = vstd::slice::slice_subrange(all, va, vb);
    if same_text(key, "channel") {
        match parse_unsigned(value, 255) {
            Some(n) => Ok(
                RadioSpec {
                    driver: spec.driver,
                    channel: Some(n as u8),
                    iface: spec.iface,
                    tx_power: spec.tx_power,
                },
            ),
            None => Err(SpecError::BadChannel),
        }
    } else if same_text(key, "iface") {
        Ok(
            RadioSpec {
                driver: spec.driver,
                channel: spec.channel,
                iface: Some(text_part(s, va, vb)),
                tx_power: spec.tx_power,
            },
        )
    } else if same_text(key, "tx-power") {
        match parse_unsigned(value, 255) {
            Some(n) => Ok(
                RadioSpec {
                    driver: spec.driver,
                    channel: spec.channel,
                    iface: spec.iface,
                    tx_power: Some(n as u8),
                },
            ),
            None => Err(SpecError::BadTxPower),
        }
    } else {
        Err(SpecError::UnknownOption(text_part(s, ka, kb)))
    }
}

/// Reads what a text asks for.
pub fn parse_spec(s: &str) -> (r: Result<RadioSpec, SpecError>)
    ensures
        same_result(r, spec_read(s@)),
{
    let chars: Vec<char> = chars_of(s);
    let all: &[char] = chars.as_slice();
    let first: usize = find_char(all, ';', 0);
    let (a, b): (usize, usize) = trim_bounds(all, 0, first);
    let ghost list = text::pieces(s@, ';');
    proof {
        assert(s@.subrange(0, first as int) =~= s@.take(first as int));
        assert(list[0] == s@.take(first as int)) by {
            if first == s@.len() {
                assert(s@.take(first as int) =~= s@);
            }
        }
        if first < s@.len() {
            assert(list.skip(1) =~= text::pieces(s@.skip(first as int + 1), ';'));
        } else {
            assert(list.skip(1) =~= Seq::<Seq<char>>::empty());
        }
    }
    if a == b {
        return Err(SpecError::NoDriver);
    }
    let mut spec = RadioSpec {
        driver: text_part(s, a, b),
        channel: None,
        iface: None,
        tx_power: None,
    };
    let mut at: usize = first;
    while at < chars.len()
        invariant
            at <= chars.len(),
            chars@ == s@,
            all@ == s@,
            spec_read(s@) == options_read(
                spec@,
                if at < s@.len() {
                    text::pieces(s@.skip(at as int + 1), ';')
                } else {
                    Seq::empty()
                },
            ),
        decreases chars.len() - at,
    {
        let next: usize = find_char(all, ';', at + 1);
        let ghost rest = s@.skip(at as int + 1);
        let ghost left = text::pieces(rest, ';');
        proof {
            text::lemma_first_at_in_rest(s@, ';', at as int + 1, at as int + 1);
            let n = next - at - 1;
            assert(text::first_at(rest, ';', 0) == n);
            if next < s@.len() {
                assert(left[0] == rest.take(n));
                assert(rest.skip(n + 1) =~= s@.skip(next as int + 1));
                assert(left.skip(1) =~= text::pieces(s@.skip(next as int + 1), ';'));
            } else {
                assert(left[0] == rest);
                assert(rest.take(n) =~= rest);
                assert(left.skip(1) =~= Seq::<Seq<char>>::empty());
            }
            assert(s@.subrange(at as int + 1, next as int) =~= rest.take(n));
        }
        match read_option(s, &chars, at + 1, next, spec) {
            Ok(updated) => {
                spec = updated;
            },
            Err(e) => {
                return Err(e);
            },
        }
        at = next;
    }
    Ok(spec)
}

/// What the options named `radio` ask for, in order, or the first fault.
pub open spec fn specs_read(opts: Seq<(String, String)>) -> Result<Seq<SpecView>, SpecFault>
    decreases opts.len(),
{
    if opts.len() == 0 {
        Ok(Seq::empty())
    } else {
        match specs_read(opts.drop_last()) {
            Err(e) => Err(e),
            Ok(before) => if opts.last().0@ == "radio"@ {
                match spec_read(opts.last().1@) {
                    Ok(v) => Ok(before.push(v)),
                    Err(e) => Err(e),
                }
            } else {
                Ok(before)
            },
        }
    }
}

/// What the parameters of a face ask for: the `radio` options, else the one radio
/// of the remote text, and at least one.
pub open spec fn radios_read(opts: Seq<(String, String)>, remote: Option<String>) -> Result<
    Seq<SpecView>,
    SpecFault,
> {
    match specs_read(opts) {
        Err(e) => Err(e),
        Ok(list) => if list.len() > 0 {
            Ok(list)
        } else {
            match remote {
                Some(r) => match spec_read(r@) {
                    Ok(v) => Ok(seq![v]),
                    Err(e) => Err(e),
                },
                None => Err(SpecFault::NoRadio),
            }
        },
    }
}

/// The radios as values.
pub open spec fn spec_views(list: Seq<RadioSpec>) -> Seq<SpecView> {
    list.map_values(|s: RadioSpec| s@)
}

/// A fault among the first options stays the fault of all of them.
proof fn lemma_fault_stays(opts: Seq<(String, String)>, n: int)
    requires
        0 <= n <= opts.len(),
        specs_read(opts.take(n)) is Err,
    ensures
        specs_read(opts) == specs_read(opts.take(n)),
    decreases opts.len(),
{
    if n == opts.len() {
        assert(opts.take(n) =~= opts);
    } else {
        assert(opts.drop_last().take(n) =~= opts.take(n));
        lemma_fault_stays(opts.drop_last(), n);
    }
}

/// Reads the radios that the parameters of a face ask for.
pub fn parse_specs(opts: &Vec<(String, String)>, remote: &Option<String>) -> (r: Result<
    Vec<RadioSpec>,
    SpecError,
>)
    ensures
        match (r, radios_read(opts@, *remote)) {
            (Ok(a), Ok(b)) => spec_views(a@) == b,
            (Err(a), Err(b)) => a@ == b,
            _ => false,
        },
{
    let mut specs: Vec<RadioSpec> = Vec::new();
    let mut i: usize = 0;
    assert(opts@.take(0) =~= Seq::<(String, String)>::empty());
    assert(spec_views(specs@) =~= Seq::<SpecView>::empty());
    while i < opts.len()
        invariant
            i <= opts.len(),
            specs_read(opts@.take(i as int)) == Ok::<Seq<SpecView>, SpecFault>(
                spec_views(specs@),
            ),
        decreases opts.len() - i,
    {
        let ghost more = opts@.take(i as int + 1);
        proof {
            assert(more.drop_last() =~= opts@.take(i as int));
            assert(more.last() == opts@[i as int]);
        }
        let name: Vec<char> = chars_of(opts[i].0.as_str());
        if same_text(name.as_slice(), "radio") {
            let ghost before = spec_views(specs@);
            match parse_spec(opts[i].1.as_str()) {
                Ok(s) => {
                    specs.push(s);
                    assert(spec_views(specs@) =~= before.push(s@));
                },
                Err(e) => {
                    proof {
                        lemma_fault_stays(opts@, i as int + 1);
                    }
                    return Err(e);
                },
            }
        }
        i = i + 1;
    }
    assert(opts@.take(i as int) =~= opts@);
    if specs.len() > 0 {
        return Ok(specs);
    }
    match remote {
        Some(text) => match parse_spec(text.as_str()) {
            Ok(s) => {
                specs.push(s);
                assert(spec_views(specs@) =~= seq![s@]);
                Ok(specs)
            },
            Err(e) => Err(e),
        },
        None => Err(SpecError::NoRadio),
    }
}

/// How a radio is brought up.
#[derive(Debug, Clone, Copy, PartialEq, Eq, Structural)]
pub enum BearerPlan {
    /// On an in-process bus.
    Loopback,
    /// As a USB device on this channel.
    Usb(u8),
    /// On the interface that the radio names.
    Packet,
    /// On the interface that the radio names, below 1 GHz.
    Halow,
    /// The USB driver needs a channel.
    ChannelMissing,
    /// The interface driver needs an interface.
    IfaceMissing,
    /// The driver is not known.
    UnknownDriver,
}

/// How a radio is brought up, by its driver's name.
pub open spec fn bearer_plan(s: SpecView) -> BearerPlan {
    if s.driver == "loopback"@ {
        BearerPlan::Loopback
    } else if s.driver == "rtl8822e"@ {
        match s.channel {
            Some(c) => BearerPlan::Usb(c),
            None => BearerPlan::ChannelMissing,
        }
    } else if s.driver == "af-packet"@ {
        if s.iface is Some {
            BearerPlan::Packet
        } else {
            BearerPlan::IfaceMissing
        }
    } else if s.driver == "halow"@ {
        if s.iface is Some {
            BearerPlan::Halow
        } else {
            BearerPlan::IfaceMissing
        }
    } else {
        BearerPlan::UnknownDriver
    }
}

/// How is a radio brought up?
pub fn build_bearer(spec: &RadioSpec) -> (p: BearerPlan)
    ensures
        p == bearer_plan(spec@),
{
    let driver: Vec<char> = chars_of(spec.driver.as_str());
    if same_text(driver.as_slice(), "loopback") {
        BearerPlan::Loopback
    } else if same_text(driver.as_slice(), "rtl8822e") {
        match spec.channel {
            Some(c) => BearerPlan::Usb(c),
            None => BearerPlan::ChannelMissing,
        }
    } else if same_text(driver.as_slice(), "af-packet") {
        if spec.iface.is_some() {
            BearerPlan::Packet
        } else {
            BearerPlan::IfaceMissing
        }
    } else if same_text(driver.as_slice(), "halow") {
        if spec.iface.is_some() {
            BearerPlan::Halow
        } else {
            BearerPlan::IfaceMissing
        }
    } else {
        BearerPlan::UnknownDriver
    }
}

// ---------------------------------------------------------------------------
// Laws
// ---------------------------------------------------------------------------

/// Options never change the driver.
pub proof fn law_options_keep_the_driver(spec: SpecView, list: Seq<Seq<char>>)
    ensures
        options_read(spec, list) matches Ok(v) ==> v.driver == spec.driver,
    decreases list.len(),
{
    if list.len() > 0 {
        if let Ok(next) = option_read(spec, list[0]) {
            law_options_keep_the_driver(next, list.skip(1));
        }
    }
}

/// The remote text counts only where no option asks for a radio.
pub proof fn law_radio_options_outrank_the_remote(
    opts: Seq<(String, String)>,
    a: Option<String>,
    b: Option<String>,
)
    requires
        specs_read(opts) matches Ok(list) && list.len() > 0,
    ensures
        radios_read(opts, a) == radios_read(opts, b),
{
}

/// An option sets its own field, to the value behind the equals sign, and no other; a
/// later one overrules an earlier one.
pub proof fn law_an_option_sets_its_own_field(
    spec: SpecView,
    piece: Seq<char>,
    k: Seq<char>,
    v: Seq<char>,
)
    requires
        text::parted(text::trimmed(piece), '=') == Some((k, v)),
    ensures
        ({
            let key = text::trimmed(k);
            let value = text::trimmed(v);
            let number = text::unsigned(value, 255);
            let got = option_read(spec, piece);
            &&& key == "channel"@ ==> match number {
                Some(n) => got matches Ok(s) && (s.channel matches Some(c) && c == n) && s.driver
                    == spec.driver && s.iface == spec.iface && s.tx_power == spec.tx_power,
                None => got == Err::<SpecView, SpecFault>(SpecFault::BadChannel),
            }
            &&& key == "tx-power"@ ==> match number {
                Some(n) => got matches Ok(s) && (s.tx_power matches Some(c) && c == n) && s.driver
                    == spec.driver && s.iface == spec.iface && s.channel == spec.channel,
                None => got == Err::<SpecView, SpecFault>(SpecFault::BadTxPower),
            }
            &&& key == "iface"@ ==> (got matches Ok(s) && s.iface == Some(value) && s.driver
                == spec.driver && s.channel == spec.channel && s.tx_power == spec.tx_power)
            &&& key != "channel"@ && key != "tx-power"@ && key != "iface"@ ==> got == Err::<
                SpecView,
                SpecFault,
            >(SpecFault::UnknownOption(key))
        }),
{
    reveal_strlit("channel");
    reveal_strlit("iface");
    reveal_strlit("tx-power");
    assert("channel"@.len() != "iface"@.len());
    assert("channel"@.len() != "tx-power"@.len());
    assert("iface"@.len() != "tx-power"@.len());
    let kv = text::trimmed(piece);
    if kv.len() == 0 {
        text::law_a_character_is_found_where_it_first_stands(kv, '=', 0, 0);
    }
}

/// An empty option says nothing, and one without an equals sign is a fault.
pub proof fn law_options_are_pairs(spec: SpecView, piece: Seq<char>)
    requires
        text::parted(text::trimmed(piece), '=') is None,
    ensures
        text::trimmed(piece).len() == 0 ==> option_read(spec, piece) == Ok::<SpecView, SpecFault>(
            spec,
        ),
        text::trimmed(piece).len() > 0 ==> option_read(spec, piece) == Err::<SpecView, SpecFault>(
            SpecFault::NotKeyValue(text::trimmed(piece)),
        ),
{
}

/// Options are read one behind the other, every one of them, up to the first fault.
pub proof fn law_options_are_read_in_turn(
    spec: SpecView,
    a: Seq<Seq<char>>,
    piece: Seq<char>,
)
    ensures
        options_read(spec, Seq::empty()) == Ok::<SpecView, SpecFault>(spec),
        options_read(spec, a.push(piece)) == (match options_read(spec, a) {
            Ok(mid) => option_read(mid, piece),
            Err(e) => Err(e),
        }),
    decreases a.len(),
{
    let all = a.push(piece);
    if a.len() > 0 {
        assert(all[0] == a[0]);
        assert(all.skip(1) =~= a.skip(1).push(piece));
        if let Ok(next) = option_read(spec, a[0]) {
            law_options_are_read_in_turn(next, a.skip(1), piece);
        }
    } else {
        assert(all[0] == piece);
        assert(all.skip(1) =~= Seq::<Seq<char>>::empty());
        if let Ok(next) = option_read(spec, piece) {
            assert(options_read(next, all.skip(1)) == Ok::<SpecView, SpecFault>(next));
        }
    }
}

/// A text names its driver before the first semicolon and its options between the
/// others; it asks for nothing where the driver is missing, and a driver alone leaves
/// everything else open.
pub proof fn law_a_text_names_driver_and_options(a: Seq<char>, b: Seq<char>)
    requires
        forall|i: int| 0 <= i < a.len() ==> #[trigger] a[i] != ';',
    ensures
        ({
            let bare = SpecView {
                driver: text::trimmed(a),
                channel: None,
                iface: None,
                tx_power: None,
            };
            &&& text::trimmed(a).len() == 0 ==> spec_read(a) == Err::<SpecView, SpecFault>(
                SpecFault::NoDriver,
            ) && spec_read(a + seq![';'] + b) == Err::<SpecView, SpecFault>(SpecFault::NoDriver)
            &&& text::trimmed(a).len() > 0 ==> spec_read(a) == Ok::<SpecView, SpecFault>(bare)
                && spec_read(a + seq![';'] + b) == options_read(bare, text::pieces(b, ';'))
        }),
{
    text::law_a_text_parts_at_its_first_separator(a, ';', b);
    let list = text::pieces(a + seq![';'] + b, ';');
    assert(list.skip(1) =~= text::pieces(b, ';'));
    assert(text::pieces(a, ';').skip(1) =~= Seq::<Seq<char>>::empty());
}

/// Every option named `radio` asks for a radio, in order, up to the first fault; other
/// options ask for none.
pub proof fn law_every_radio_option_asks_for_a_radio(
    opts: Seq<(String, String)>,
    o: (String, String),
)
    ensures
        specs_read(Seq::empty()) == Ok::<Seq<SpecView>, SpecFault>(Seq::empty()),
        ({
            let got = specs_read(opts.push(o));
            &&& specs_read(opts) is Err ==> got == specs_read(opts)
            &&& specs_read(opts) is Ok && o.0@ != "radio"@ ==> got == specs_read(opts)
            &&& specs_read(opts) matches Ok(list) ==> (o.0@ == "radio"@ ==> match spec_read(o.1@) {
                Ok(v) => got == Ok::<Seq<SpecView>, SpecFault>(list.push(v)),
                Err(e) => got == Err::<Seq<SpecView>, SpecFault>(e),
            })
        }),
{
    assert(opts.push(o).drop_last() =~= opts);
    assert(opts.push(o).last() == o);
}

/// Without a `radio` option the remote text asks for the one radio, and without either no
/// radio is asked for.
pub proof fn law_the_remote_text_stands_in(opts: Seq<(String, String)>, remote: String)
    requires
        specs_read(opts) matches Ok(list) && list.len() == 0,
    ensures
        radios_read(opts, None) == Err::<Seq<SpecView>, SpecFault>(SpecFault::NoRadio),
        match spec_read(remote@) {
            Ok(v) => radios_read(opts, Some(remote)) == Ok::<Seq<SpecView>, SpecFault>(seq![v]),
            Err(e) => radios_read(opts, Some(remote)) == Err::<Seq<SpecView>, SpecFault>(e),
        },
{
}

/// What the `radio` options ask for is what a face gets, and their fault is its fault.
pub proof fn law_radio_options_are_taken_as_they_are(
    opts: Seq<(String, String)>,
    remote: Option<String>,
)
    ensures
        specs_read(opts) is Err ==> radios_read(opts, remote) == specs_read(opts),
        specs_read(opts) matches Ok(list) ==> (list.len() > 0 ==> radios_read(opts, remote)
            == specs_read(opts)),
{
}

/// How each driver is brought up: the bus in the process as it is, the USB radio on its
/// channel, the packet and the sub-gigahertz radio on their interface, and no other.
pub proof fn law_how_a_driver_is_brought_up(s: SpecView)
    ensures
        bearer_plan(s) == BearerPlan::Loopback <==> s.driver == "loopback"@,
        s.driver == "rtl8822e"@ ==> (match s.channel {
            Some(c) => bearer_plan(s) == BearerPlan::Usb(c),
            None => bearer_plan(s) == BearerPlan::ChannelMissing,
        }),
        s.driver == "af-packet"@ ==> bearer_plan(s) == (if s.iface is Some {
            BearerPlan::Packet
        } else {
            BearerPlan::IfaceMissing
        }),
        s.driver == "halow"@ ==> bearer_plan(s) == (if s.iface is Some {
            BearerPlan::Halow
        } else {
            BearerPlan::IfaceMissing
        }),
        bearer_plan(s) == BearerPlan::UnknownDriver <==> s.driver != "loopback"@ && s.driver
            != "rtl8822e"@ && s.driver != "af-packet"@ && s.driver != "halow"@,
{
    reveal_strlit("loopback");
    reveal_strlit("rtl8822e");
    reveal_strlit("af-packet");
    reveal_strlit("halow");
    assert("loopback"@[0] != "rtl8822e"@[0]);
    assert("af-packet"@.len() != "loopback"@.len());
    assert("halow"@.len() != "loopback"@.len());
    assert("af-packet"@.len() != "halow"@.len());
}

/// A radio as a value keeps what was read of it.
pub proof fn law_a_radio_as_a_value(r: RadioSpec, list: Seq<RadioSpec>, i: int)
    requires
        0 <= i < list.len(),
    ensures
        r@.driver == r.driver@,
        r@.channel == r.channel,
        r@.tx_power == r.tx_power,
        r.iface is None ==> r@.iface is None,
        r.iface matches Some(f) ==> r@.iface == Some(f@),
        spec_views(list).len() == list.len(),
        spec_views(list)[i] == list[i]@,
{
}

/// A result holds what was read exactly where both succeed with the same radio or both
/// fail with the same fault.
pub proof fn law_a_result_is_the_same(
    r: Result<RadioSpec, SpecError>,
    v: Result<SpecView, SpecFault>,
)
    requires
        same_result(r, v),
    ensures
        r is Ok <==> v is Ok,
        r matches Ok(a) ==> a@ == v->Ok_0,
        r matches Err(e) ==> e@ == v->Err_0,
{
}

/// A fault as a value is of the kind that it was, with the text that it names.
pub proof fn law_a_fault_as_a_value(e: SpecError)
    ensures
        match e {
            SpecError::NoDriver => e@ is NoDriver,
            SpecError::NotKeyValue(s) => e@ == SpecFault::NotKeyValue(s@),
            SpecError::BadChannel => e@ is BadChannel,
            SpecError::BadTxPower => e@ is BadTxPower,
            SpecError::UnknownOption(s) => e@ == SpecFault::UnknownOption(s@),
            SpecError::NoRadio => e@ is NoRadio,
        },
{
}

} // verus!
