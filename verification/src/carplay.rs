//! How the CarPlay receiver introduces itself: the accessory's address, the settings of a session
//! and which of them a phone on the dongle's own Bluetooth gets.

use vstd::prelude::*;
use vstd::string::StringSliceAdditionalSpecFns;

use crate::aa::{channel_or, or_else, read_channel};
use crate::text::{dec, pieces, put_dec, read_unsigned, same_text, split_on, unsigned, views};

verus! {

/// The bytes of the parts that are hexadecimal, in their order, the others left out.
pub open spec fn hex_parts(parts: Seq<Seq<char>>) -> Seq<u8>
    decreases parts.len(),
{
    if parts.len() == 0 {
        Seq::empty()
    } else {
        match unsigned(parts.last(), 16, 255) {
            Some(b) => hex_parts(parts.drop_last()).push(b as u8),
            None => hex_parts(parts.drop_last()),
        }
    }
}

/// A locally administered address with the bytes of a text folded into its last five places, in
/// turn.
pub open spec fn folded(bytes: Seq<u8>) -> Seq<u8>
    decreases bytes.len(),
{
    if bytes.len() == 0 {
        seq![0x02u8, 0u8, 0u8, 0u8, 0u8, 0u8]
    } else {
        let front = folded(bytes.drop_last());
        let at = 1 + (bytes.len() - 1) % 5;
        front.update(at, front[at] ^ bytes.last())
    }
}

proof fn folded_len(bytes: Seq<u8>)
    ensures
        folded(bytes).len() == 6,
        folded(bytes)[0] == 0x02,
    decreases bytes.len(),
{
    if bytes.len() > 0 {
        folded_len(bytes.drop_last());
    }
}

/// The accessory's address.
pub open spec fn accessory_address(given: Option<Seq<char>>, pi: Seq<u8>) -> Seq<u8> {
    if given is Some && hex_parts(split_on(given->0, ':')).len() == 6 {
        hex_parts(split_on(given->0, ':'))
    } else {
        folded(pi)
    }
}

fn read_parts(text: &str) -> (out: Vec<u8>)
    ensures
        out@ == hex_parts(split_on(text@, ':')),
{
    let parts = pieces(text, ':');
    let ghost all = split_on(text@, ':');
    let mut out: Vec<u8> = Vec::new();
    let mut i: usize = 0;
    assert(out@ =~= hex_parts(all.take(0)));
    while i < parts.len()
        invariant
            i <= parts@.len(),
            all == views(parts@),
            out@ == hex_parts(all.take(i as int)),
        decreases parts@.len() - i,
    {
        assert(all[i as int] == parts@[i as int]@);
        assert(all.take(i + 1).drop_last() =~= all.take(i as int));
        if let Some(b) = read_unsigned(parts[i].as_str(), 16, 255) {
            out.push(b as u8);
        }
        i += 1;
    }
    assert(all.take(i as int) =~= all);
    out
}

/// Six bytes for the accessory: those that were given, where they are six, else derived from the
/// host's pairing id.
pub fn accessory_mac(given: Option<&str>, pi: &str) -> (r: [u8; 6])
    ensures
        r@ == accessory_address(
            match given {
                Some(g) => Some(g@),
                None => None,
            },
            pi.spec_bytes(),
        ),
{
    if let Some(text) = given {
        let b = read_parts(text);
        if b.len() == 6 {
            let r = [b[0], b[1], b[2], b[3], b[4], b[5]];
            assert(r@ =~= b@);
            return r;
        }
    }
    let bytes = pi.as_bytes();
    let mut m: Vec<u8> = vec![0x02u8, 0u8, 0u8, 0u8, 0u8, 0u8];
    assert(m@ =~= folded(bytes@.take(0)));
    let mut i: usize = 0;
    let mut k: usize = 0;
    while i < bytes.len()
        invariant
            i <= bytes@.len(),
            k == i as int % 5,
            m@ == folded(bytes@.take(i as int)),
        decreases bytes@.len() - i,
    {
        proof {
            folded_len(bytes@.take(i as int));
        }
        assert(bytes@.take(i + 1).drop_last() =~= bytes@.take(i as int));
        let was: u8 = m[1 + k];
        m.set(1 + k, was ^ bytes[i]);
        i += 1;
        k = if k == 4 { 0 } else { k + 1 };
    }
    assert(bytes@.take(i as int) =~= bytes@);
    proof {
        folded_len(bytes@);
    }
    let r = [m[0], m[1], m[2], m[3], m[4], m[5]];
    assert(r@ =~= m@);
    r
}

/// An address that is derived is a locally administered one.
pub proof fn a_derived_address_is_local(given: Option<Seq<char>>, pi: Seq<u8>)
    requires
        given is None || hex_parts(split_on(given->0, ':')).len() != 6,
    ensures
        accessory_address(given, pi).len() == 6,
        accessory_address(given, pi)[0] == 0x02,
{
    folded_len(pi);
}

/// How a phone reaches the receiver.
#[derive(PartialEq, Eq, Structural, Clone, Copy)]
pub enum Transport {
    Wired,
    Wireless,
}

/// How the access point a phone is told to join is secured.
#[derive(PartialEq, Eq, Structural, Clone, Copy)]
pub enum SecurityType {
    WpaWpa2,
}

/// What a CarPlay session is set up with.
pub struct CpConfig {
    pub ap_mac: Option<String>,
    pub wifi_iface: String,
    pub ssid: String,
    pub passphrase: String,
    pub channel: u16,
    pub security_type: SecurityType,
    pub airplay_port: u32,
    pub source_version: String,
    pub public_key: String,
    pub transport: Transport,
    /// The interface that carries the stream, once it is known for a session.
    pub av_iface: Option<String>,
    pub available_current_ma: u32,
}

/// Who the accessory is.
pub struct Identity {
    pub name: String,
    pub ssid: String,
    pub bt_mac: [u8; 6],
}

/// What the environment says, as far as it does.
pub struct CpEnv {
    pub name: Option<String>,
    pub pi: Option<String>,
    pub passphrase: Option<String>,
    pub channel: Option<String>,
    pub airplay_port: Option<String>,
    pub source_version: Option<String>,
    pub bt_mac: Option<String>,
}

fn value_or(value: &Option<String>, fallback: &str) -> (out: String)
    ensures
        out@ == or_else(*value, fallback@),
{
    match value {
        Some(v) => v.clone(),
        None => fallback.to_owned(),
    }
}

fn view_of(value: &Option<String>) -> (r: Option<&str>)
    ensures
        match r {
            Some(s) => *value matches Some(v) && v@ == s@,
            None => *value is None,
        },
{
    match value {
        Some(v) => Some(v.as_str()),
        None => None,
    }
}

/// The text of an optional string.
pub open spec fn text_in(value: Option<String>) -> Option<Seq<char>> {
    match value {
        Some(v) => Some(v@),
        None => None,
    }
}

fn copied(value: &Option<String>) -> (r: Option<String>)
    ensures
        text_in(r) == text_in(*value),
{
    match value {
        Some(v) => Some(v.clone()),
        None => None,
    }
}

/// The number a value writes, else a fallback.
pub open spec fn number_or(value: Option<String>, fallback: u32) -> u32 {
    match value {
        Some(v) => match unsigned(v@, 10, 0xffff_ffff) {
            Some(n) => n as u32,
            None => fallback,
        },
        None => fallback,
    }
}

fn read_number(value: &Option<String>, fallback: u32) -> (n: u32)
    ensures
        n == number_or(*value, fallback),
{
    match value {
        Some(v) => match read_unsigned(v.as_str(), 10, 0xffff_ffff) {
            Some(n) => n as u32,
            None => fallback,
        },
        None => fallback,
    }
}

/// The port the receiver is published under: the lower half of what was set.
pub fn published_port(cp: &CpConfig) -> (r: u16)
    ensures
        r == (cp.airplay_port as int % 0x1_0000) as u16,
{
    (cp.airplay_port % 0x1_0000) as u16
}

/// The settings of a wired session and the accessory's identity: what the environment says, each
/// with its default.
pub fn cp_config(env: &CpEnv) -> (r: (CpConfig, Identity))
    ensures
        ({
            let name = or_else(env.name, "LIVI"@);
            let (cp, id) = r;
            &&& cp.ap_mac is None
            &&& cp.wifi_iface@ == Seq::<char>::empty()
            &&& cp.ssid@ == name
            &&& cp.passphrase@ == or_else(env.passphrase, "12345678"@)
            &&& cp.channel == channel_or(env.channel, 36)
            &&& cp.security_type == SecurityType::WpaWpa2
            &&& cp.airplay_port == number_or(env.airplay_port, 7000)
            &&& cp.source_version@ == or_else(env.source_version, "950.7.1"@)
            &&& cp.public_key@ == or_else(env.pi, ""@)
            &&& cp.transport == Transport::Wired
            &&& cp.av_iface is None
            &&& cp.available_current_ma == 500
            &&& id.name@ == name
            &&& id.ssid@ == name
            &&& id.bt_mac@ == accessory_address(
                match env.bt_mac {
                    Some(m) => Some(m@),
                    None => None,
                },
                vstd::utf8::encode_utf8(or_else(env.pi, ""@)),
            )
        }),
{
    let name = value_or(&env.name, "LIVI");
    let pi = value_or(&env.pi, "");
    let bt_mac = accessory_mac(view_of(&env.bt_mac), pi.as_str());
    let cp = CpConfig {
        ap_mac: None,
        wifi_iface: String::new(),
        ssid: name.clone(),
        passphrase: value_or(&env.passphrase, "12345678"),
        channel: read_channel(&env.channel, 36),
        security_type: SecurityType::WpaWpa2,
        airplay_port: read_number(&env.airplay_port, 7000),
        source_version: value_or(&env.source_version, "950.7.1"),
        public_key: pi,
        transport: Transport::Wired,
        av_iface: None,
        available_current_ma: 500,
    };
    (cp, Identity { name: name.clone(), ssid: name, bt_mac })
}

/// What the dongle reports of its access point and its controller.
pub struct DongleReport {
    pub ap_mac: Option<String>,
    pub ssid: Option<String>,
    pub channel: Option<String>,
    /// The interface facing the dongle.
    pub iface: Option<String>,
    pub bt_mac: Option<[u8; 6]>,
}

/// The settings of a session whose phone joins the dongle's access point: what the dongle reports
/// rather than what we hope it used.
pub fn wireless_config(base: &CpConfig, d: &DongleReport) -> (r: CpConfig)
    ensures
        text_in(r.ap_mac) == text_in(d.ap_mac),
        text_in(r.av_iface) == text_in(base.av_iface),
        r.ssid@ == or_else(d.ssid, base.ssid@),
        r.wifi_iface@ == or_else(d.iface, Seq::empty()),
        r.channel == channel_or(d.channel, base.channel),
        r.transport == Transport::Wireless,
        r.passphrase@ == base.passphrase@,
        r.security_type == base.security_type,
        r.airplay_port == base.airplay_port,
        r.source_version@ == base.source_version@,
        r.public_key@ == base.public_key@,
        r.available_current_ma == base.available_current_ma,
{
    CpConfig {
        ap_mac: copied(&d.ap_mac),
        wifi_iface: match &d.iface {
            Some(i) => i.clone(),
            None => String::new(),
        },
        ssid: value_or(&d.ssid, base.ssid.as_str()),
        passphrase: base.passphrase.clone(),
        channel: read_channel(&d.channel, base.channel),
        security_type: base.security_type,
        airplay_port: base.airplay_port,
        source_version: base.source_version.clone(),
        public_key: base.public_key.clone(),
        transport: Transport::Wireless,
        av_iface: copied(&base.av_iface),
        available_current_ma: base.available_current_ma,
    }
}

/// The settings of a wired session: the stream rides the phone's network interface, where that
/// one is known.
pub fn wired_config(base: CpConfig, ifname: Option<String>) -> (r: CpConfig)
    ensures
        r == (match ifname {
            Some(_) => CpConfig { av_iface: ifname, ..base },
            None => base,
        }),
{
    match ifname {
        Some(name) => CpConfig { av_iface: Some(name), ..base },
        None => base,
    }
}

/// The same identity, but naming the controller the phone actually talked to.
pub fn wireless_identity(base: &Identity, controller: Option<[u8; 6]>) -> (r: Identity)
    ensures
        r.name@ == base.name@,
        r.ssid@ == base.ssid@,
        r.bt_mac@ == (match controller {
            Some(m) => m@,
            None => base.bt_mac@,
        }),
{
    Identity {
        name: base.name.clone(),
        ssid: base.ssid.clone(),
        bt_mac: match controller {
            Some(m) => m,
            None => base.bt_mac,
        },
    }
}

/// What a session starts with when the dongle's Bluetooth hands a phone over: nothing as long as
/// its access point is not up, else what the dongle reports, and as the address the phone must
/// hear, that of the controller it is talking to.
pub fn dongle_session(up: bool, base: &CpConfig, identity: &Identity, local: [u8; 6], d: &DongleReport) -> (r: Option<(CpConfig, Identity)>)
    ensures
        r is Some <==> up,
        r matches Some((cp, id)) ==> {
            &&& text_in(cp.ap_mac) == text_in(d.ap_mac)
            &&& cp.ssid@ == or_else(d.ssid, base.ssid@)
            &&& cp.wifi_iface@ == or_else(d.iface, Seq::empty())
            &&& cp.channel == channel_or(d.channel, base.channel)
            &&& cp.transport == Transport::Wireless
            &&& cp.passphrase@ == base.passphrase@
            &&& cp.security_type == base.security_type
            &&& cp.airplay_port == base.airplay_port
            &&& cp.source_version@ == base.source_version@
            &&& cp.public_key@ == base.public_key@
            &&& text_in(cp.av_iface) == text_in(base.av_iface)
            &&& cp.available_current_ma == base.available_current_ma
            &&& id.name@ == identity.name@
            &&& id.ssid@ == identity.ssid@
            &&& id.bt_mac == local
        },
{
    if !up {
        return None;
    }
    let id = Identity { name: identity.name.clone(), ssid: identity.ssid.clone(), bt_mac: local };
    Some((wireless_config(base, d), id))
}

/// What the session on the socket introduces itself with.
pub struct Seam {
    /// Sessions come in over the dongle's own Bluetooth, which also pages and lets go for us.
    pub over_dongle: bool,
    pub config: CpConfig,
    pub identity: Identity,
}

/// A phone that came in over the dongle's Bluetooth carries on wirelessly, so the session on the
/// socket has to identify the same way. Which Bluetooth is used is a choice: the dongle's where
/// the adapter is named so.
pub fn seam(adapter: &str, choice: &str, base: CpConfig, identity: Identity, d: &DongleReport) -> (r: Seam)
    ensures
        r.over_dongle == (adapter@ == choice@),
        !r.over_dongle ==> r.config == base && r.identity == identity,
        r.over_dongle ==> {
            &&& r.config.transport == Transport::Wireless
            &&& r.config.ssid@ == or_else(d.ssid, base.ssid@)
            &&& r.config.wifi_iface@ == or_else(d.iface, Seq::empty())
            &&& r.config.channel == channel_or(d.channel, base.channel)
            &&& r.config.passphrase@ == base.passphrase@
            &&& r.config.airplay_port == base.airplay_port
            &&& r.config.source_version@ == base.source_version@
            &&& r.config.public_key@ == base.public_key@
            &&& r.config.available_current_ma == base.available_current_ma
            &&& text_in(r.config.ap_mac) == text_in(d.ap_mac)
            &&& text_in(r.config.av_iface) == text_in(base.av_iface)
            &&& r.config.security_type == base.security_type
            &&& r.identity.name@ == identity.name@
            &&& r.identity.ssid@ == identity.ssid@
            &&& r.identity.bt_mac@ == (match d.bt_mac {
                Some(m) => m@,
                None => identity.bt_mac@,
            })
        },
{
    if same_text(adapter, choice) {
        Seam {
            over_dongle: true,
            config: wireless_config(&base, d),
            identity: wireless_identity(&identity, d.bt_mac),
        }
    } else {
        Seam { over_dongle: false, config: base, identity }
    }
}

/// What tells the app whether the link is up.
pub fn link_json(up: bool) -> (out: String)
    ensures
        out@ == (if up { "{\"type\":\"link\",\"up\":true}"@ } else { "{\"type\":\"link\",\"up\":false}"@ }),
{
    if up { "{\"type\":\"link\",\"up\":true}".to_owned() } else { "{\"type\":\"link\",\"up\":false}".to_owned() }
}

/// What is said of the coprocessor, by the generation it reports.
pub fn coprocessor_line(major: u8) -> (out: String)
    ensures
        out@ == "[helperd] MFi coprocessor: auth protocol major "@ + dec(major as nat) + " — "@
            + (if major == 2 { "2.0 (RSA, SHA-1)"@ } else { "3.0 (ECDSA, SHA-256)"@ }),
{
    let mut out = "[helperd] MFi coprocessor: auth protocol major ".to_owned();
    put_dec(&mut out, major as u64);
    out.append(" — ");
    out.append(if major == 2 { "2.0 (RSA, SHA-1)" } else { "3.0 (ECDSA, SHA-256)" });
    out
}

/// What a wait for the coprocessor's generation comes to.
#[derive(PartialEq, Eq, Structural, Clone, Copy)]
pub enum Identified {
    /// The link is gone.
    Lost,
    Known(u8),
    /// Not answering yet. Reported the first time.
    Wait { report: bool },
}

/// One try to learn the coprocessor's generation while the link is up.
pub fn identify(present: bool, answer: Option<u8>, reported: bool) -> (r: Identified)
    ensures
        r == (if !present {
            Identified::Lost
        } else {
            match answer {
                Some(major) => Identified::Known(major),
                None => Identified::Wait { report: !reported },
            }
        }),
{
    if !present {
        return Identified::Lost;
    }
    match answer {
        Some(major) => Identified::Known(major),
        None => Identified::Wait { report: !reported },
    }
}

/// Each part that is hexadecimal gives its byte, in order, and any other part is left out, whatever stands
/// beside it.
pub proof fn each_part_gives_its_byte(a: Seq<Seq<char>>, part: Seq<char>, b: Seq<Seq<char>>)
    ensures
        hex_parts(a + seq![part] + b) == hex_parts(a) + (match unsigned(part, 16, 255) {
            Some(n) => seq![n as u8],
            None => Seq::empty(),
        }) + hex_parts(b),
        hex_parts(Seq::empty()).len() == 0,
    decreases b.len(),
{
    let s = a + seq![part] + b;
    let one = match unsigned(part, 16, 255) {
        Some(n) => seq![n as u8],
        None => Seq::<u8>::empty(),
    };
    if b.len() == 0 {
        assert(s.drop_last() =~= a);
        assert(s.last() == part);
        assert(hex_parts(s) =~= hex_parts(a) + one + hex_parts(b));
    } else {
        each_part_gives_its_byte(a, part, b.drop_last());
        assert(s.drop_last() =~= a + seq![part] + b.drop_last());
        assert(s.last() == b.last());
        assert(hex_parts(s) =~= hex_parts(a) + one + hex_parts(b));
    }
}

/// Five bytes that follow one another are folded into five places, each into its own, and five bytes that
/// are folded in twice cancel. A text of five bytes is the address it gives, behind the first byte.
pub proof fn bytes_are_folded_in_turn(front: Seq<u8>, five: Seq<u8>)
    requires
        five.len() == 5,
    ensures
        forall|i: int| 0 <= i < 5 ==> ({
            let at = 1 + (front.len() + i) % 5;
            folded(front + five)[at] == folded(front)[at] ^ #[trigger] five[i]
        }),
        folded(front + five + five) == folded(front),
        folded(five) == seq![0x02u8] + five,
{
    folded_len(front);
    each_place(front, five);
    each_place(front + five, five);
    each_place(Seq::empty(), five);
    folded_len(front + five);
    folded_len(front + five + five);
    folded_len(five);
    let n = front.len() as int;
    let a = folded(front);
    let c = folded(front + five + five);
    assert forall|k: int| 1 <= k < 6 implies c[k] == a[k] by {
        let i = (k - 1 - n % 5 + 5) % 5;
        assert((n + i) % 5 == k - 1);
        assert((n + 5 + i) % 5 == k - 1);
        let (x, y) = (a[k], five[i]);
        assert(1 + ((front + five).len() + i) % 5 == k);
        assert(folded(front + five)[k] == x ^ y);
        assert(c[k] == folded(front + five)[k] ^ y);
        assert((x ^ y) ^ y == x) by (bit_vector);
    }
    assert(c =~= a);
    assert(Seq::<u8>::empty() + five =~= five);
    assert forall|i: int| 0 <= i < 5 implies folded(five)[1 + i] == #[trigger] five[i] by {
        let y = five[i];
        assert(i % 5 == i);
        assert(folded(Seq::empty())[1 + i] == 0u8);
        assert(0u8 ^ y == y) by (bit_vector);
    }
    assert(folded(five) =~= seq![0x02u8] + five);
}

proof fn each_place(front: Seq<u8>, five: Seq<u8>)
    requires
        five.len() == 5,
    ensures
        forall|i: int| 0 <= i < 5 ==> ({
            let at = 1 + (front.len() + i) % 5;
            folded(front + five)[at] == folded(front)[at] ^ #[trigger] five[i]
        }),
{
    let n = front.len() as int;
    let f0 = front;
    let f1 = f0.push(five[0]);
    let f2 = f1.push(five[1]);
    let f3 = f2.push(five[2]);
    let f4 = f3.push(five[3]);
    let f5 = f4.push(five[4]);
    assert(front + five =~= f5);
    folded_len(f0);
    folded_len(f1);
    folded_len(f2);
    folded_len(f3);
    folded_len(f4);
    assert(f1.drop_last() =~= f0 && f2.drop_last() =~= f1 && f3.drop_last() =~= f2 && f4.drop_last() =~= f3
        && f5.drop_last() =~= f4);
    assert(folded(f1) == folded(f0).update(1 + n % 5, folded(f0)[1 + n % 5] ^ five[0]));
    assert(folded(f2) == folded(f1).update(1 + (n + 1) % 5, folded(f1)[1 + (n + 1) % 5] ^ five[1]));
    assert(folded(f3) == folded(f2).update(1 + (n + 2) % 5, folded(f2)[1 + (n + 2) % 5] ^ five[2]));
    assert(folded(f4) == folded(f3).update(1 + (n + 3) % 5, folded(f3)[1 + (n + 3) % 5] ^ five[3]));
    assert(folded(f5) == folded(f4).update(1 + (n + 4) % 5, folded(f4)[1 + (n + 4) % 5] ^ five[4]));
    assert forall|i: int| 0 <= i < 5 implies ({
        let at = 1 + (front.len() + i) % 5;
        folded(front + five)[at] == folded(front)[at] ^ #[trigger] five[i]
    }) by {
        if i == 0 {
        } else if i == 1 {
        } else if i == 2 {
        } else if i == 3 {
        } else {
        }
    }
}

/// Six parts that are given are the address, in the order they are written in.
pub proof fn a_given_address_is_used(given: Seq<char>, b: Seq<u8>, pi: Seq<u8>)
    requires
        b.len() == 6,
        split_on(given, ':') == seq![
            crate::text::hex2_upper(b[0]),
            crate::text::hex2_upper(b[1]),
            crate::text::hex2_upper(b[2]),
            crate::text::hex2_upper(b[3]),
            crate::text::hex2_upper(b[4]),
            crate::text::hex2_upper(b[5]),
        ],
    ensures
        accessory_address(Some(given), pi) == b,
{
    let p = split_on(given, ':');
    assert forall|i: int| 0 <= i < 6 implies unsigned(#[trigger] p[i], 16, 255) == Some(b[i] as int) by {
        crate::bonds::a_byte_reads_back(b[i]);
    }
    assert(p.take(6) =~= p);
    parts_so_far(p, b, 6);
    assert(b.take(6) =~= b);
}

proof fn parts_so_far(p: Seq<Seq<char>>, b: Seq<u8>, n: int)
    requires
        p.len() == 6,
        b.len() == 6,
        0 <= n <= 6,
        forall|i: int| 0 <= i < 6 ==> unsigned(#[trigger] p[i], 16, 255) == Some(b[i] as int),
    ensures
        hex_parts(p.take(n)) == b.take(n),
    decreases n,
{
    if n > 0 {
        parts_so_far(p, b, n - 1);
        assert(p.take(n).drop_last() =~= p.take(n - 1));
        assert(p.take(n).last() == p[n - 1]);
        assert(b.take(n) =~= b.take(n - 1).push(b[n - 1]));
    } else {
        assert(hex_parts(p.take(0)) =~= b.take(0));
    }
}

/// A port that is written as a number is the one that is used, and the fallback where it cannot be one.
pub proof fn a_written_number_is_used(value: Option<String>, n: nat, fallback: u32)
    requires
        value matches Some(v) && v@ == dec(n),
    ensures
        n <= 0xffff_ffff ==> number_or(value, fallback) == n,
        n > 0xffff_ffff ==> number_or(value, fallback) == fallback,
        number_or(None, fallback) == fallback,
{
    crate::text::a_number_reads_back(n, 10);
}

} // verus!
