//! The dongle as the Bluetooth accessory: how it presents itself, what it answers the kernel and
//! the host, and how it asks a phone for its channel.

use vstd::prelude::*;
use vstd::string::StringSliceAdditionalSpecFns;

use crate::bonds::{address, addr, front_text, six, written};
use crate::bytes::{append, append_zeros, be16, copy, copy_range, get_le32, put_be16, u32_le, zeros};
use crate::mgmt::{set_names, settings};
use crate::phones::{addresses, Phones};
use crate::sdp::{packet, packet_bytes, protocol_bytes, sequence, sequence_bytes, uint16, uint16_bytes, uuid128, uuid128_bytes};
use crate::sdp::{CARPLAY_UUID, IAP_CLIENT_UUID, IAP_UUID};
use crate::text::{begins, debug_text, dec, hex, join, put_dec, put_hex, quoted, same_text};
use crate::text::{starts_with, strip_all, stripped, views, words, words_of, zero_pad};

verus! {

/// Where the host picks up the iAP session.
pub const PORT: u16 = 5004;
pub const CONTROL_PORT: u16 = 5005;
/// The name used while the access point has none.
pub const NAME: &'static str = "LIVI Link";
/// Where the bonds are kept, unless the daemon was told another place.
pub const KEYS_PATH: &'static str = "/etc/livi-bt-keys";
/// Audio/Video, car audio.
pub const CLASS_MAJOR: u8 = 0x04;
pub const CLASS_MINOR: u8 = 0x20;
/// The audio service bit.
pub const SERVICE_AUDIO: u8 = 0x20;
/// No display and no keypad.
pub const IO_NO_INPUT_NO_OUTPUT: u8 = 0x03;

pub const SET_POWERED: u16 = 0x0005;
pub const SET_DISCOVERABLE: u16 = 0x0006;
pub const SET_CONNECTABLE: u16 = 0x0007;
pub const SET_BONDABLE: u16 = 0x0009;
pub const SET_SSP: u16 = 0x000b;
pub const SET_CLASS: u16 = 0x000e;
pub const SET_NAME: u16 = 0x000f;
pub const ADD_UUID: u16 = 0x0010;
pub const SET_IO_CAPABILITY: u16 = 0x0018;
pub const LOAD_LINK_KEYS: u16 = 0x0012;
pub const DISCONNECT: u16 = 0x0014;
pub const USER_CONFIRM_REPLY: u16 = 0x001c;
pub const PIN_CODE_NEG_REPLY: u16 = 0x0017;

pub const EV_NEW_SETTINGS: u16 = 0x0006;
pub const EV_NEW_LINK_KEY: u16 = 0x0009;
pub const EV_DEVICE_CONNECTED: u16 = 0x000b;
pub const EV_DEVICE_DISCONNECTED: u16 = 0x000c;
pub const EV_CONNECT_FAILED: u16 = 0x000d;
pub const EV_PIN_CODE_REQUEST: u16 = 0x000e;
pub const EV_USER_CONFIRM_REQUEST: u16 = 0x000f;
pub const EV_AUTH_FAILED: u16 = 0x0011;

/// How the daemon is set up.
pub struct Config {
    pub keys_path: String,
    /// A name that stays, whatever the access point is called.
    pub name_override: Option<String>,
}

/// Where the bonds are kept.
pub fn keys_path(config: Option<&Config>) -> (out: String)
    ensures
        out@ == (match config {
            Some(c) => c.keys_path@,
            None => KEYS_PATH@,
        }),
{
    match config {
        Some(c) => c.keys_path.clone(),
        None => KEYS_PATH.to_owned(),
    }
}

/// The name the car goes by: the fixed one, else the access point's, else our own.
pub open spec fn car_name(fixed: Option<String>, ap: Option<String>) -> Seq<char> {
    match (fixed, ap) {
        (Some(name), _) => name@,
        (None, Some(name)) => name@,
        (None, None) => NAME@,
    }
}

/// The name the car goes by.
pub fn shown_name(config: &Config, ap: &Option<String>) -> (out: String)
    ensures
        out@ == car_name(config.name_override, *ap),
{
    match &config.name_override {
        Some(name) => name.clone(),
        None => match ap {
            Some(name) => name.clone(),
            None => NAME.to_owned(),
        },
    }
}

/// The name to change to, where the access point has one that is not shown yet.
pub fn renamed(ap: &Option<String>, shown: &str) -> (r: Option<String>)
    ensures
        match r {
            Some(name) => *ap matches Some(a) && a@ == name@ && a@ != shown@,
            None => *ap matches Some(a) ==> a@ == shown@,
        },
{
    match ap {
        Some(name) => if same_text(name.as_str(), shown) { None } else { Some(name.clone()) },
        None => None,
    }
}

/// One service for discovery, in the byte order the socket wants.
pub fn advertised(uuid: &[u8; 16]) -> (out: Vec<u8>)
    ensures
        out@ == uuid@.reverse().push(SERVICE_AUDIO),
{
    let mut out: Vec<u8> = Vec::new();
    let mut i: usize = 0;
    while i < 16
        invariant
            i <= 16,
            uuid@.len() == 16,
            out@ == uuid@.reverse().take(i as int),
        decreases 16 - i,
    {
        out.push(uuid[15 - i]);
        i += 1;
        assert(out@ =~= uuid@.reverse().take(i as int));
    }
    assert(out@ =~= uuid@.reverse());
    out.push(SERVICE_AUDIO);
    out
}

/// The first bytes of a name, at most so many.
pub open spec fn cut(name: Seq<u8>, max: int) -> Seq<u8> {
    if name.len() < max { name } else { name.take(max) }
}

/// The fixed-width name field the kernel expects: 249 bytes, then 11 for the short name, each
/// closed by a zero.
pub open spec fn name_field(name: Seq<u8>) -> Seq<u8> {
    cut(name, 248) + zeros((249 - cut(name, 248).len()) as nat) + cut(name, 10)
        + zeros((11 - cut(name, 10).len()) as nat)
}

/// The fixed-width name field the kernel expects.
pub fn local_name(name: &str) -> (out: Vec<u8>)
    ensures
        out@ == name_field(name.spec_bytes()),
        out@.len() == 260,
{
    let bytes = name.as_bytes();
    let long: usize = if bytes.len() < 248 { bytes.len() } else { 248 };
    let short: usize = if bytes.len() < 10 { bytes.len() } else { 10 };
    let mut out = copy_range(bytes, 0, long);
    assert(out@ =~= cut(bytes@, 248));
    append_zeros(&mut out, 249 - long);
    let head = copy_range(bytes, 0, short);
    assert(head@ =~= cut(bytes@, 10));
    append(&mut out, &head);
    append_zeros(&mut out, 11 - short);
    out
}

/// Commands as opcode and parameters.
pub open spec fn calls(list: Seq<(u16, Vec<u8>)>) -> Seq<(u16, Seq<u8>)> {
    Seq::new(list.len(), |i: int| (list[i].0, list[i].1@))
}

fn one(b: u8) -> (out: Vec<u8>)
    ensures
        out@ == seq![b],
{
    let mut out: Vec<u8> = Vec::new();
    out.push(b);
    assert(out@ =~= seq![b]);
    out
}

fn visible(on: u8) -> (out: Vec<u8>)
    ensures
        out@ == seq![on, 0u8, 0u8],
{
    let mut out = one(on);
    out.push(0u8);
    out.push(0u8);
    assert(out@ =~= seq![on, 0u8, 0u8]);
    out
}

/// What sets the accessory up: powered, secure simple pairing without display and keypad,
/// bondable, its class, its services, its name, connectable, and visible without a timeout.
pub open spec fn setup(name: Seq<u8>) -> Seq<(u16, Seq<u8>)> {
    seq![
        (SET_POWERED, seq![1u8]),
        (SET_SSP, seq![1u8]),
        (SET_IO_CAPABILITY, seq![IO_NO_INPUT_NO_OUTPUT]),
        (SET_BONDABLE, seq![1u8]),
        (SET_CLASS, seq![CLASS_MAJOR, CLASS_MINOR]),
        (ADD_UUID, IAP_UUID@.reverse().push(SERVICE_AUDIO)),
        (ADD_UUID, IAP_CLIENT_UUID@.reverse().push(SERVICE_AUDIO)),
        (ADD_UUID, CARPLAY_UUID@.reverse().push(SERVICE_AUDIO)),
        (SET_NAME, name_field(name)),
        (SET_CONNECTABLE, seq![1u8]),
        (SET_DISCOVERABLE, seq![1u8, 0u8, 0u8]),
    ]
}

/// The commands that set name, class and services, and make the controller connectable and
/// discoverable, in their order.
pub fn present(name: &str) -> (out: Vec<(u16, Vec<u8>)>)
    ensures
        calls(out@) == setup(name.spec_bytes()),
{
    let mut class = one(CLASS_MAJOR);
    class.push(CLASS_MINOR);
    assert(class@ =~= seq![CLASS_MAJOR, CLASS_MINOR]);
    let mut out: Vec<(u16, Vec<u8>)> = Vec::new();
    out.push((SET_POWERED, one(1)));
    out.push((SET_SSP, one(1)));
    out.push((SET_IO_CAPABILITY, one(IO_NO_INPUT_NO_OUTPUT)));
    out.push((SET_BONDABLE, one(1)));
    out.push((SET_CLASS, class));
    out.push((ADD_UUID, advertised(&IAP_UUID)));
    out.push((ADD_UUID, advertised(&IAP_CLIENT_UUID)));
    out.push((ADD_UUID, advertised(&CARPLAY_UUID)));
    out.push((SET_NAME, local_name(name)));
    out.push((SET_CONNECTABLE, one(1)));
    out.push((SET_DISCOVERABLE, visible(1)));
    assert(calls(out@) =~= setup(name.spec_bytes()));
    out
}

/// The commands that make the controller connectable and discoverable, or neither.
pub fn offer(on: bool) -> (out: Vec<(u16, Vec<u8>)>)
    ensures
        ({
            let bit = if on { 1u8 } else { 0u8 };
            calls(out@) == seq![(SET_CONNECTABLE, seq![bit]), (SET_DISCOVERABLE, seq![bit, 0u8, 0u8])]
        }),
{
    let bit: u8 = if on { 1 } else { 0 };
    let mut out: Vec<(u16, Vec<u8>)> = Vec::new();
    out.push((SET_CONNECTABLE, one(bit)));
    out.push((SET_DISCOVERABLE, visible(bit)));
    assert(calls(out@) =~= seq![(SET_CONNECTABLE, seq![bit]), (SET_DISCOVERABLE, seq![bit, 0u8, 0u8])]);
    out
}

/// The parameters that drop the link to one phone: its address and its kind.
pub fn drop_phone(phone: &[u8; 6]) -> (out: Vec<u8>)
    ensures
        out@ == phone@ + seq![0u8],
{
    let mut out = copy(phone);
    out.push(0u8);
    assert(out@ =~= phone@ + seq![0u8]);
    out
}

/// What is sent ahead of a session: peer, local, a blank line.
pub fn session_head(phone: &str, local: &str) -> (out: String)
    ensures
        out@ == "peer "@ + phone@ + "\nlocal "@ + local@ + "\n\n"@,
{
    let mut out = "peer ".to_owned();
    out.append(phone);
    out.append("\nlocal ");
    out.append(local);
    out.append("\n\n");
    out
}

/// The request for where a phone's iAP service lives.
pub fn channel_request() -> (out: Vec<u8>)
    ensures
        out@ == packet_bytes(
            0x06,
            1,
            sequence_bytes(uuid128_bytes(IAP_CLIENT_UUID@)) + be16(0xffff) + sequence_bytes(uint16_bytes(0x0004)) + seq![0u8],
        ),
{
    let mut params = sequence(&uuid128(&IAP_CLIENT_UUID));
    put_be16(&mut params, 0xffff);
    append(&mut params, &sequence(&uint16(0x0004)));
    params.push(0u8);
    assert(params@ =~= sequence_bytes(uuid128_bytes(IAP_CLIENT_UUID@)) + be16(0xffff)
        + sequence_bytes(uint16_bytes(0x0004)) + seq![0u8]);
    packet(0x06, 1, &params)
}

/// Whether the RFCOMM marker stands at a place, with a byte behind it.
pub open spec fn marked(reply: Seq<u8>, i: int) -> bool {
    0 <= i && i + 5 <= reply.len() && reply[i] == 0x19 && reply[i + 1] == 0x00 && reply[i + 2] == 0x03
        && reply[i + 3] == 0x08
}

/// The channel in a phone's answer. It sits right behind the first RFCOMM marker.
pub fn find_channel(reply: &[u8]) -> (r: Option<u8>)
    ensures
        match r {
            Some(c) => exists|i: int| #[trigger] marked(reply@, i) && c == reply@[i + 4]
                && forall|j: int| 0 <= j < i ==> !marked(reply@, j),
            None => forall|i: int| !marked(reply@, i),
        },
{
    let mut i: usize = 0;
    while i < reply.len() && reply.len() - i >= 5
        invariant
            i <= reply@.len(),
            forall|j: int| 0 <= j < i ==> !marked(reply@, j),
        decreases reply@.len() - i,
    {
        if reply[i] == 0x19 && reply[i + 1] == 0x00 && reply[i + 2] == 0x03 && reply[i + 3] == 0x08 {
            assert(marked(reply@, i as int));
            return Some(reply[i + 4]);
        }
        i += 1;
    }
    None
}

/// The channel a record of our own names is the one that is found in it.
pub proof fn a_record_names_its_channel(channel: u8)
    ensures
        marked(protocol_bytes(channel), 9),
        protocol_bytes(channel)[13] == channel,
        forall|j: int| 0 <= j < 9 ==> !marked(protocol_bytes(channel), j),
{
    let p = protocol_bytes(channel);
    assert(p[4] == 0x19 && p[5] == 0x01);
    assert(p[0] == 0x35 && p[1] == 12 && p[2] == 0x35 && p[3] == 3 && p[6] == 0 && p[7] == 0x35 && p[8] == 5);
    assert(p[9] == 0x19 && p[10] == 0 && p[11] == 3 && p[12] == 8 && p[13] == channel);
}

/// What an event asks for.
pub struct Heard {
    /// What is logged.
    pub line: Option<String>,
    /// The command that answers it.
    pub reply: Option<(u16, Vec<u8>)>,
    /// A bond to keep.
    pub bond: Option<Vec<u8>>,
}

/// What is logged of an event.
pub open spec fn heard_line(code: u16, body: Seq<u8>) -> Option<Seq<char>> {
    let who = "[iapd] "@ + front_text(body);
    if code == EV_USER_CONFIRM_REQUEST {
        Some(who + " wants to bond, confirming"@)
    } else if code == EV_PIN_CODE_REQUEST {
        Some(who + " asked for a pin, turning it down"@)
    } else if code == EV_NEW_LINK_KEY {
        Some("[iapd] bonded with "@ + front_text(body.skip(1)))
    } else if code == EV_DEVICE_CONNECTED {
        Some(who + " connected"@)
    } else if code == EV_DEVICE_DISCONNECTED {
        Some(who + " disconnected"@)
    } else if code == EV_CONNECT_FAILED {
        Some(who + " would not connect"@)
    } else if code == EV_AUTH_FAILED {
        Some(who + " failed to authenticate"@)
    } else if code == EV_NEW_SETTINGS {
        if body.len() >= 4 {
            Some("[iapd] now "@ + join(set_names(u32_le(body, 0), 16), " "@))
        } else {
            None
        }
    } else {
        Some("[iapd] event 0x"@ + zero_pad(hex(code as nat), 4))
    }
}

/// Whether a body is long enough for the event it came with.
pub open spec fn complete(code: u16, body: Seq<u8>) -> bool {
    &&& (code == EV_USER_CONFIRM_REQUEST || code == EV_PIN_CODE_REQUEST) ==> body.len() >= 7
    &&& code == EV_NEW_LINK_KEY ==> body.len() >= 1
}

fn said(body: &[u8], what: &str) -> (r: Option<String>)
    ensures
        r matches Some(s) && s@ == "[iapd] "@ + front_text(body@) + what@,
{
    let mut out = "[iapd] ".to_owned();
    out.append(addr(body).as_str());
    out.append(what);
    Some(out)
}

/// Takes one event of the kernel. A pairing question is confirmed, a pin is turned down, a new
/// key is handed on to be kept, and who is on the air is remembered.
pub fn listen(phones: &mut Phones, code: u16, body: &[u8], now: u64) -> (r: Heard)
    requires
        complete(code, body@),
    ensures
        match r.line {
            Some(s) => heard_line(code, body@) == Some(s@),
            None => heard_line(code, body@) is None,
        },
        match r.reply {
            Some((opcode, params)) => {
                &&& params@ == body@.take(7)
                &&& code == EV_USER_CONFIRM_REQUEST && opcode == USER_CONFIRM_REPLY
                    || code == EV_PIN_CODE_REQUEST && opcode == PIN_CODE_NEG_REPLY
            },
            None => code != EV_USER_CONFIRM_REQUEST && code != EV_PIN_CODE_REQUEST,
        },
        match r.bond {
            Some(key) => code == EV_NEW_LINK_KEY && body@.len() > 25 && key@ == body@.subrange(1, 26),
            None => !(code == EV_NEW_LINK_KEY && body@.len() > 25),
        },
        final(phones).wanted == old(phones).wanted,
        final(phones).tries == old(phones).tries,
        final(phones).after == old(phones).after,
        final(phones).next == old(phones).next,
        forall|p: Seq<u8>| (#[trigger] final(phones).linked.of(p)) is Some
            <==> (if body@.len() >= 6 && p == body@.take(6) && code == EV_DEVICE_CONNECTED {
                true
            } else if body@.len() >= 6 && p == body@.take(6) && code == EV_DEVICE_DISCONNECTED {
                false
            } else {
                old(phones).linked.of(p) is Some
            }),
        forall|p: Seq<u8>| #[trigger] final(phones).since.of(p)
            == (if body@.len() >= 6 && p == body@.take(6) && code == EV_DEVICE_CONNECTED {
                Some(now)
            } else if body@.len() >= 6 && p == body@.take(6) && code == EV_DEVICE_DISCONNECTED {
                None
            } else {
                old(phones).since.of(p)
            }),
{
    if code == EV_USER_CONFIRM_REQUEST {
        let params = copy_range(body, 0, 7);
        assert(params@ =~= body@.take(7));
        return Heard { line: said(body, " wants to bond, confirming"), reply: Some((USER_CONFIRM_REPLY, params)), bond: None };
    }
    if code == EV_PIN_CODE_REQUEST {
        let params = copy_range(body, 0, 7);
        assert(params@ =~= body@.take(7));
        return Heard {
            line: said(body, " asked for a pin, turning it down"),
            reply: Some((PIN_CODE_NEG_REPLY, params)),
            bond: None,
        };
    }
    if code == EV_NEW_LINK_KEY {
        let rest = copy_range(body, 1, body.len());
        assert(rest@ =~= body@.skip(1));
        let mut line = "[iapd] bonded with ".to_owned();
        line.append(addr(&rest).as_str());
        let bond = if body.len() > 25 { Some(copy_range(body, 1, 26)) } else { None };
        return Heard { line: Some(line), reply: None, bond };
    }
    if code == EV_DEVICE_CONNECTED {
        if let Some(phone) = six(body) {
            phones.connected(phone, now);
        }
        return Heard { line: said(body, " connected"), reply: None, bond: None };
    }
    if code == EV_DEVICE_DISCONNECTED {
        if let Some(phone) = six(body) {
            phones.disconnected(phone);
        }
        return Heard { line: said(body, " disconnected"), reply: None, bond: None };
    }
    if code == EV_CONNECT_FAILED {
        return Heard { line: said(body, " would not connect"), reply: None, bond: None };
    }
    if code == EV_AUTH_FAILED {
        return Heard { line: said(body, " failed to authenticate"), reply: None, bond: None };
    }
    if code == EV_NEW_SETTINGS {
        if body.len() >= 4 {
            let mut line = "[iapd] now ".to_owned();
            line.append(settings(get_le32(body, 0)).as_str());
            return Heard { line: Some(line), reply: None, bond: None };
        }
        return Heard { line: None, reply: None, bond: None };
    }
    let mut line = "[iapd] event 0x".to_owned();
    put_hex(&mut line, code as u64, 4);
    Heard { line: Some(line), reply: None, bond: None }
}

/// One order of the host.
pub enum Order {
    /// Set the controller up again after a host had it.
    On,
    Off,
    Disconnect([u8; 6]),
    /// Who the host still wants paged. It leaves out whoever already has a session with it.
    Targets(Vec<[u8; 6]>),
    Status,
}

/// The first word of a list that is no address, or the length.
pub open spec fn first_unwritten(list: Seq<Seq<char>>) -> nat
    decreases list.len(),
{
    if list.len() == 0 || written(list[0]) is None { 0 } else { 1 + first_unwritten(list.skip(1)) }
}

/// What a line orders.
pub enum OrderSpec {
    On,
    Off,
    Disconnect(Seq<u8>),
    Targets(Seq<Seq<u8>>),
    Status,
    Refused(Seq<char>),
}

/// What a line orders.
pub open spec fn ordered(line: Seq<char>) -> OrderSpec {
    if line == "on"@ {
        OrderSpec::On
    } else if line == "off"@ {
        OrderSpec::Off
    } else if starts_with(line, "disconnect "@) {
        match written(stripped(line, "disconnect "@)) {
            Some(a) => OrderSpec::Disconnect(a),
            None => OrderSpec::Refused("not an address"@),
        }
    } else if line == "targets"@ || starts_with(line, "targets "@) {
        let list = words(line.skip(7));
        let bad = first_unwritten(list) as int;
        if bad < list.len() {
            OrderSpec::Refused("not an address: "@ + list[bad])
        } else {
            OrderSpec::Targets(Seq::new(list.len(), |i: int| written(list[i])->0))
        }
    } else if line == "status"@ {
        OrderSpec::Status
    } else {
        OrderSpec::Refused("unknown order "@ + debug_text(line))
    }
}

/// Whether a result is what was expected of it.
pub open spec fn reads(r: Result<Order, String>, want: OrderSpec) -> bool {
    match (r, want) {
        (Ok(Order::On), OrderSpec::On) => true,
        (Ok(Order::Off), OrderSpec::Off) => true,
        (Ok(Order::Disconnect(a)), OrderSpec::Disconnect(b)) => a@ == b,
        (Ok(Order::Targets(a)), OrderSpec::Targets(b)) => addresses(a@) == b,
        (Ok(Order::Status), OrderSpec::Status) => true,
        (Err(a), OrderSpec::Refused(b)) => a@ == b,
        _ => false,
    }
}

fn read_targets(list: &Vec<String>) -> (r: Result<Vec<[u8; 6]>, String>)
    ensures
        ({
            let ws = views(list@);
            let bad = first_unwritten(ws) as int;
            match r {
                Ok(out) => bad >= ws.len() && addresses(out@) == Seq::new(ws.len(), |i: int| written(ws[i])->0),
                Err(why) => bad < ws.len() && why@ == "not an address: "@ + ws[bad],
            }
        }),
{
    let ghost ws = views(list@);
    let mut out: Vec<[u8; 6]> = Vec::new();
    let mut i: usize = 0;
    assert(ws.skip(0) =~= ws);
    while i < list.len()
        invariant
            i <= list@.len(),
            ws == views(list@),
            ws.len() == list@.len(),
            out@.len() == i,
            forall|j: int| 0 <= j < i ==> Some((#[trigger] out@[j])@) == written(ws[j]),
            first_unwritten(ws) == i + first_unwritten(ws.skip(i as int)),
        decreases list@.len() - i,
    {
        assert(ws.skip(i as int)[0] == list@[i as int]@);
        assert(ws.skip(i as int).skip(1) =~= ws.skip(i + 1));
        match address(list[i].as_str()) {
            Some(a) => {
                out.push(a);
            },
            None => {
                let mut why = "not an address: ".to_owned();
                why.append(list[i].as_str());
                return Err(why);
            },
        }
        i += 1;
    }
    assert(addresses(out@) =~= Seq::new(ws.len(), |j: int| written(ws[j])->0));
    Ok(out)
}

/// Reads one order of the host.
pub fn parse_order(line: &str) -> (r: Result<Order, String>)
    ensures
        reads(r, ordered(line@)),
{
    if same_text(line, "on") {
        return Ok(Order::On);
    }
    if same_text(line, "off") {
        return Ok(Order::Off);
    }
    if begins(line, "disconnect ") {
        return match address(strip_all(line, "disconnect ").as_str()) {
            Some(a) => Ok(Order::Disconnect(a)),
            None => Err("not an address".to_owned()),
        };
    }
    if same_text(line, "targets") || begins(line, "targets ") {
        let len: usize = line.unicode_len();
        proof {
            reveal_strlit("targets");
            reveal_strlit("targets ");
        }
        assert(line@.subrange(7, len as int) =~= line@.skip(7));
        let list = words_of(line.substring_char(7, len));
        return match read_targets(&list) {
            Ok(out) => Ok(Order::Targets(out)),
            Err(why) => Err(why),
        };
    }
    if same_text(line, "status") {
        return Ok(Order::Status);
    }
    let mut why = "unknown order ".to_owned();
    why.append(quoted(line).as_str());
    Err(why)
}

/// What an order does to who is paged, before the controller is told: the host's list is taken
/// over, and switching off ends the offer and forgets the list. Switching on is done once the
/// controller took it.
pub fn take_order(order: &Order, phones: &mut Phones, offered: &mut bool)
    ensures
        match *order {
            Order::Off => final(phones).wanted is None && !*final(offered),
            Order::Targets(list) => {
                &&& final(phones).wanted matches Some(w) && w@ == list@
                &&& *final(offered) == *old(offered)
            },
            _ => final(phones).wanted == old(phones).wanted && *final(offered) == *old(offered),
        },
        final(phones).linked == old(phones).linked,
        final(phones).since == old(phones).since,
        final(phones).tries == old(phones).tries,
        final(phones).after == old(phones).after,
        final(phones).next == old(phones).next,
{
    match order {
        Order::Off => {
            *offered = false;
            phones.wanted = None;
        },
        Order::Targets(list) => {
            let mut copy: Vec<[u8; 6]> = Vec::new();
            let mut i: usize = 0;
            while i < list.len()
                invariant
                    i <= list@.len(),
                    copy@ == list@.take(i as int),
                decreases list@.len() - i,
            {
                copy.push(list[i]);
                i += 1;
                assert(copy@ =~= list@.take(i as int));
            }
            assert(copy@ =~= list@);
            phones.wanted = Some(copy);
        },
        _ => {},
    }
}

/// The answer to a question for the status: how many bonds there are, whether the car is offered,
/// and how many phones the host wants.
pub fn status_text(bonds: usize, offered: bool, wanted: &Option<Vec<[u8; 6]>>) -> (out: String)
    ensures
        out@ == "bonds "@ + dec(bonds as nat) + "\noffered "@ + (if offered { "on"@ } else { "off"@ })
            + "\ntargets "@ + (match *wanted {
                Some(list) => dec(list@.len()),
                None => "-"@,
            }) + "\nok\n"@,
{
    let mut out = "bonds ".to_owned();
    put_dec(&mut out, bonds as u64);
    out.append("\noffered ");
    out.append(if offered { "on" } else { "off" });
    out.append("\ntargets ");
    match wanted {
        Some(list) => {
            put_dec(&mut out, list.len() as u64);
        },
        None => {
            out.append("-");
        },
    }
    out.append("\nok\n");
    out
}

/// What goes back to the host for an order.
pub fn order_answer(outcome: &Result<String, String>) -> (out: String)
    ensures
        out@ == (match *outcome {
            Ok(text) => text@,
            Err(why) => "error "@ + why@ + "\n"@,
        }),
{
    match outcome {
        Ok(text) => text.clone(),
        Err(why) => {
            let mut out = "error ".to_owned();
            out.append(why.as_str());
            out.append("\n");
            out
        },
    }
}

/// The name stands in the first 248 bytes of its field and its first ten bytes from the 250th on, each
/// cut where it is longer and filled up with zeros, so that a zero closes both.
pub proof fn a_name_fills_its_field(name: Seq<u8>, i: int)
    ensures
        name_field(name).len() == 260,
        0 <= i < 248 ==> name_field(name)[i] == (if i < name.len() { name[i] } else { 0 }),
        name_field(name)[248] == 0,
        0 <= i < 10 ==> name_field(name)[249 + i] == (if i < name.len() { name[i] } else { 0 }),
        name_field(name)[259] == 0,
{
}

/// The commands that set the accessory up, by number and parameters, in their order.
pub proof fn how_the_accessory_is_set_up(name: Seq<u8>)
    ensures
        ({
            let s = setup(name);
            &&& s.len() == 11
            &&& s[0] == (0x0005u16, seq![1u8])
            &&& s[1] == (0x000bu16, seq![1u8])
            &&& s[2] == (0x0018u16, seq![3u8])
            &&& s[3] == (0x0009u16, seq![1u8])
            &&& s[4] == (0x000eu16, seq![0x04u8, 0x20u8])
            &&& s[5].0 == 0x0010 && s[6].0 == 0x0010 && s[7].0 == 0x0010
            &&& s[8] == (0x000fu16, name_field(name))
            &&& s[9] == (0x0007u16, seq![1u8])
            &&& s[10] == (0x0006u16, seq![1u8, 0u8, 0u8])
            &&& s[5].1.len() == 17 && s[6].1.len() == 17 && s[7].1.len() == 17
            &&& s[5].1[16] == 0x20 && s[6].1[16] == 0x20 && s[7].1[16] == 0x20
            &&& forall|i: int| 0 <= i < 16 ==> #[trigger] s[5].1[i] == IAP_UUID@[15 - i]
            &&& forall|i: int| 0 <= i < 16 ==> #[trigger] s[6].1[i] == IAP_CLIENT_UUID@[15 - i]
            &&& forall|i: int| 0 <= i < 16 ==> #[trigger] s[7].1[i] == CARPLAY_UUID@[15 - i]
        }),
{
}

/// What is logged of an event names the phone at its front, which stands behind a flag where a key is new.
pub proof fn what_is_logged_names_the_phone(flag: u8, phone: Seq<u8>, more: Seq<u8>)
    requires
        phone.len() == 6,
    ensures
        ({
            let who = "[iapd] "@ + crate::text::mac_text(phone);
            let body = phone + more;
            &&& heard_line(0x000f, body) == Some(who + " wants to bond, confirming"@)
            &&& heard_line(0x000e, body) == Some(who + " asked for a pin, turning it down"@)
            &&& heard_line(0x000b, body) == Some(who + " connected"@)
            &&& heard_line(0x000c, body) == Some(who + " disconnected"@)
            &&& heard_line(0x000d, body) == Some(who + " would not connect"@)
            &&& heard_line(0x0011, body) == Some(who + " failed to authenticate"@)
            &&& heard_line(0x0009, seq![flag] + body) == Some("[iapd] bonded with "@ + crate::text::mac_text(phone))
        }),
{
    let body = phone + more;
    assert(body.take(6) =~= phone);
    assert((seq![flag] + body).skip(1) =~= body);
}

/// The lines that name some phones: each address behind a space.
pub open spec fn named(list: Seq<Seq<u8>>) -> Seq<char>
    decreases list.len(),
{
    if list.len() == 0 { Seq::empty() } else { seq![' '] + crate::text::mac_text(list[0]) + named(list.skip(1)) }
}

/// An order that names phones gives the phones it names, in their order, and an order to let one go gives
/// that one.
pub proof fn an_order_names_its_phones(list: Seq<Seq<u8>>, phone: Seq<u8>)
    requires
        phone.len() == 6,
        forall|i: int| 0 <= i < list.len() ==> (#[trigger] list[i]).len() == 6,
    ensures
        ordered("targets"@ + named(list)) == OrderSpec::Targets(list),
        ordered("disconnect "@ + crate::text::mac_text(phone)) == OrderSpec::Disconnect(phone),
        ordered("on"@) == OrderSpec::On,
        ordered("off"@) == OrderSpec::Off,
        ordered("status"@) == OrderSpec::Status,
{
    reveal_strlit("on");
    reveal_strlit("off");
    reveal_strlit("status");
    reveal_strlit("targets");
    reveal_strlit("targets ");
    reveal_strlit("disconnect ");
    let t = "targets"@ + named(list);
    assert(t.skip(7) =~= named(list));
    named_words(list);
    if list.len() == 0 {
        assert(t =~= "targets"@);
    } else {
        assert(named(list)[0] == ' ');
        assert(t.take(8) =~= "targets "@);
    }
    assert(t[0] == 't');
    assert("disconnect "@[0] == 'd');
    assert(!starts_with(t, "disconnect "@)) by {
        if starts_with(t, "disconnect "@) {
            assert(t.take(11)[0] == t[0]);
        }
    }
    assert("on"@[0] == 'o' && "off"@[0] == 'o' && "status"@[0] == 's' && "on"@.len() == 2 && "off"@.len() == 3);
    let m = crate::text::mac_text(phone);
    let d = "disconnect "@ + m;
    assert(d.take(11) =~= "disconnect "@);
    crate::text::prefixes_are_taken_off("disconnect "@, m);
    crate::text::an_address_is_written_backwards(phone, 0);
    assert(!starts_with(m, "disconnect "@)) by {
        if starts_with(m, "disconnect "@) {
            assert(m.take(11)[0] == m[0]);
        }
    }
    crate::bonds::an_address_reads_back(phone);
    assert(d[0] == 'd');
    let s = "status"@;
    assert(!starts_with(s, "disconnect "@));
    assert(!starts_with(s, "targets "@));
    assert(s[0] != "targets"@[0]);
}

proof fn named_words(list: Seq<Seq<u8>>)
    requires
        forall|i: int| 0 <= i < list.len() ==> (#[trigger] list[i]).len() == 6,
    ensures
        words(named(list)) == Seq::new(list.len(), |i: int| crate::text::mac_text(list[i])),
        first_unwritten(words(named(list))) == list.len(),
        Seq::new(list.len(), |i: int| written(words(named(list))[i])->0) == list,
        list.len() > 0 ==> named(list)[0] == ' ',
    decreases list.len(),
{
    let want = Seq::new(list.len(), |i: int| crate::text::mac_text(list[i]));
    if list.len() == 0 {
        crate::text::words_stand_between_white_space(Seq::empty(), ' ', Seq::empty());
        assert(words(named(list)) =~= want);
        assert(Seq::new(list.len(), |i: int| written(words(named(list))[i])->0) =~= list);
    } else {
        let tail = list.skip(1);
        let m = crate::text::mac_text(list[0]);
        assert forall|i: int| 0 <= i < tail.len() implies (#[trigger] tail[i]).len() == 6 by {
            assert(tail[i] == list[i + 1]);
        }
        named_words(tail);
        mac_plain(list[0]);
        let rest = named(tail);
        assert(named(list) =~= seq![' '] + (m + rest));
        crate::text::words_stand_between_white_space(m, ' ', m + rest);
        if tail.len() == 0 {
            assert(m + rest =~= m);
            crate::text::words_stand_between_white_space(m, ' ', Seq::empty());
        } else {
            let behind = rest.skip(1);
            assert(rest =~= seq![' '] + behind);
            assert(m + rest =~= m + seq![' '] + behind);
            crate::text::words_stand_between_white_space(m, ' ', behind);
        }
        let w = words(named(list));
        assert(w == seq![m] + words(rest));
        assert(w =~= want);
        crate::bonds::an_address_reads_back(list[0]);
        assert(w.skip(1) =~= words(rest));
        assert(w[0] == m);
        assert(first_unwritten(w) == 1 + first_unwritten(words(rest)));
        assert forall|i: int| 0 <= i < list.len() implies written(#[trigger] w[i])->0 == list[i] by {
            if i > 0 {
                assert(w[i] == words(rest)[i - 1]);
                let t = Seq::new(tail.len(), |i: int| written(words(named(tail))[i])->0);
                assert(t[i - 1] == tail[i - 1]);
            }
        }
        assert(Seq::new(list.len(), |i: int| written(words(named(list))[i])->0) =~= list);
    }
}

proof fn mac_plain(b: Seq<u8>)
    requires
        b.len() == 6,
    ensures
        crate::text::mac_text(b).len() == 17,
        forall|k: int| 0 <= k < 17 ==> !crate::text::is_space(#[trigger] crate::text::mac_text(b)[k]),
{
    let m = crate::text::mac_text(b);
    assert forall|k: int| 0 <= k < 17 implies !crate::text::is_space(#[trigger] m[k]) by {
        crate::text::an_address_is_written_backwards(b, k / 3);
    }
    crate::text::an_address_is_written_backwards(b, 0);
}

/// A marker is told by its four bytes with the channel behind them, wherever it stands.
pub proof fn a_marker_stands_anywhere(front: Seq<u8>, channel: u8, more: Seq<u8>)
    ensures
        marked(front + seq![0x19u8, 0x00u8, 0x03u8, 0x08u8, channel] + more, front.len() as int),
        (front + seq![0x19u8, 0x00u8, 0x03u8, 0x08u8, channel] + more)[front.len() as int + 4] == channel,
        !marked(front, front.len() - 4),
{
    let s = front + seq![0x19u8, 0x00u8, 0x03u8, 0x08u8, channel] + more;
    let n = front.len() as int;
    assert(s[n] == 0x19 && s[n + 1] == 0 && s[n + 2] == 3 && s[n + 3] == 8 && s[n + 4] == channel);
}

} // verus!
