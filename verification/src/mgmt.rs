//! The controller's management socket: commands, events, and what the controller says about
//! itself.

use vstd::prelude::*;

use crate::bytes::{append, copy_range, get_le16, get_le32, le16, put_le16, u16_le, u32_le, until_zero, zero_at};
use crate::text::{debug_text, dec, hex, join, joined, lossy, mac, mac_text, put_dec, put_hex, quoted, utf8_lossy, views, zero_pad};

verus! {

/// The controller every command in here is aimed at.
pub const INDEX: u16 = 0;
pub const HCI_DEV_NONE: u16 = 0xffff;
/// Largest management packet the kernel sends.
pub const PACKET_MAX: usize = 1024;
pub const HEADER: usize = 6;

pub const READ_VERSION: u16 = 0x0001;
pub const READ_COMMANDS: u16 = 0x0002;
pub const READ_INFO: u16 = 0x0004;
pub const READ_UNCONF_INDEX_LIST: u16 = 0x001d;
pub const READ_CONFIG_INFO: u16 = 0x0031;

pub const CMD_COMPLETE: u16 = 0x0001;
pub const CMD_STATUS: u16 = 0x0002;

/// What the accessory needs from the kernel, by management opcode.
pub const NEEDED_OPCODES: [u16; 11] =
    [0x0005, 0x0006, 0x0007, 0x0009, 0x000b, 0x000e, 0x000f, 0x0012, 0x0018, 0x0019, 0x001c];
/// The same commands by name.
pub const NEEDED_NAMES: [&'static str; 11] = [
    "set-powered", "set-discoverable", "set-connectable", "set-bondable", "set-ssp", "set-class",
    "set-name", "load-link-keys", "set-io-capability", "pair-device", "user-confirm-reply",
];

/// The settings bits, in the order the kernel reports them.
pub const SETTINGS: [&'static str; 16] = [
    "powered", "connectable", "fast-connectable", "discoverable", "bondable", "link-security",
    "ssp", "br/edr", "hs", "le", "advertising", "secure-conn", "debug-keys", "privacy",
    "configuration", "static-address",
];

/// A command on the wire: opcode, controller, length of the parameters, parameters.
pub open spec fn command_bytes(opcode: u16, index: u16, params: Seq<u8>) -> Seq<u8> {
    le16(opcode) + le16(index) + le16((params.len() % 0x1_0000) as u16) + params
}

/// A command on the wire.
pub fn command(opcode: u16, index: u16, params: &[u8]) -> (out: Vec<u8>)
    ensures
        out@ == command_bytes(opcode, index, params@),
{
    let mut out: Vec<u8> = Vec::new();
    put_le16(&mut out, opcode);
    assert(out@ =~= le16(opcode));
    put_le16(&mut out, index);
    put_le16(&mut out, (params.len() % 0x1_0000) as u16);
    append(&mut out, params);
    out
}

/// One management packet.
pub struct Event {
    pub code: u16,
    /// The controller it is about.
    pub index: u16,
    pub body: Vec<u8>,
}

/// Reads one management packet: its event, the controller it is about, and its body. One that is
/// shorter than its header, or than its header says, is refused.
pub fn event(buf: &[u8]) -> (r: Result<Event, String>)
    ensures
        match r {
            Ok(e) => {
                &&& buf@.len() >= HEADER + u16_le(buf@, 4)
                &&& e.code == u16_le(buf@, 0)
                &&& e.index == u16_le(buf@, 2)
                &&& e.body@ == buf@.subrange(HEADER as int, HEADER + u16_le(buf@, 4))
            },
            Err(why) => if buf@.len() < HEADER {
                why@ == "short packet of "@ + dec(buf@.len()) + " bytes"@
            } else {
                &&& buf@.len() < HEADER + u16_le(buf@, 4)
                &&& why@ == "packet says "@ + dec(u16_le(buf@, 4) as nat) + " bytes, got "@
                    + dec((buf@.len() - HEADER) as nat)
            },
        },
        buf@.len() >= HEADER && buf@.len() >= HEADER + u16_le(buf@, 4) ==> r is Ok,
{
    let n: usize = buf.len();
    if n < HEADER {
        let mut why = "short packet of ".to_owned();
        put_dec(&mut why, n as u64);
        why.append(" bytes");
        return Err(why);
    }
    let code: u16 = get_le16(buf, 0);
    let index: u16 = get_le16(buf, 2);
    let len: usize = get_le16(buf, 4) as usize;
    if n < HEADER + len {
        let mut why = "packet says ".to_owned();
        put_dec(&mut why, len as u64);
        why.append(" bytes, got ");
        put_dec(&mut why, (n - HEADER) as u64);
        return Err(why);
    }
    Ok(Event { code, index, body: copy_range(buf, HEADER, HEADER + len) })
}

/// What an event means to a command that waits for its answer.
pub enum CallStep {
    /// An unrelated event, to be skipped.
    Wait,
    /// The command is done, with these parameters.
    Done(Vec<u8>),
    Refused(String),
}

/// Whether an event answers a command.
pub open spec fn is_answer(opcode: u16, e: Event) -> bool {
    e.body@.len() >= 3 && u16_le(e.body@, 0) == opcode && (e.code == CMD_COMPLETE || e.code == CMD_STATUS)
}

/// Holds one event against a command that waits. Only a completion without an error is a
/// success, and it hands the parameters behind the status over.
pub fn call_step(opcode: u16, e: &Event) -> (r: CallStep)
    ensures
        match r {
            CallStep::Wait => !is_answer(opcode, *e),
            CallStep::Done(data) => is_answer(opcode, *e) && e.code == CMD_COMPLETE && e.body@[2] == 0
                && data@ == e.body@.skip(3),
            CallStep::Refused(why) => {
                &&& is_answer(opcode, *e)
                &&& !(e.code == CMD_COMPLETE && e.body@[2] == 0)
                &&& why@ == "0x"@ + zero_pad(hex(opcode as nat), 4) + " refused with status 0x"@
                    + zero_pad(hex(e.body@[2] as nat), 2)
            },
        },
{
    if e.body.len() < 3 {
        return CallStep::Wait;
    }
    if get_le16(&e.body, 0) != opcode {
        return CallStep::Wait;
    }
    let status: u8 = e.body[2];
    if e.code == CMD_COMPLETE && status == 0 {
        let data = copy_range(&e.body, 3, e.body.len());
        assert(data@ =~= e.body@.skip(3));
        return CallStep::Done(data);
    }
    if e.code == CMD_COMPLETE || e.code == CMD_STATUS {
        let mut why = "0x".to_owned();
        put_hex(&mut why, opcode as u64, 4);
        why.append(" refused with status 0x");
        put_hex(&mut why, status as u64, 2);
        return CallStep::Refused(why);
    }
    CallStep::Wait
}

/// What the controller says about itself.
pub struct Info {
    pub address: [u8; 6],
    pub supported: u32,
    pub current: u32,
    pub class: u32,
    pub name: String,
}

/// Reads the fixed head of a controller info reply, and the name behind it up to its zero.
pub fn info(body: &[u8]) -> (r: Result<Info, String>)
    ensures
        match r {
            Ok(i) => {
                &&& body@.len() >= 20
                &&& i.address@ == body@.subrange(0, 6)
                &&& i.supported == u32_le(body@, 9)
                &&& i.current == u32_le(body@, 13)
                &&& i.class == body@[17] + body@[18] * 0x100 + body@[19] * 0x1_0000
                &&& i.name@ == lossy(until_zero(body@.skip(20)))
            },
            Err(why) => body@.len() < 20 && why@ == "controller info is "@ + dec(body@.len()) + " bytes"@,
        },
{
    if body.len() < 20 {
        let mut why = "controller info is ".to_owned();
        put_dec(&mut why, body.len() as u64);
        why.append(" bytes");
        return Err(why);
    }
    let address = [body[0], body[1], body[2], body[3], body[4], body[5]];
    assert(address@ =~= body@.subrange(0, 6));
    let end: usize = zero_at(body, 20, body.len());
    let name = copy_range(body, 20, end);
    assert(body@.subrange(20, body@.len() as int) =~= body@.skip(20));
    Ok(Info {
        address,
        supported: get_le32(body, 9),
        current: get_le32(body, 13),
        class: body[17] as u32 + body[18] as u32 * 0x100 + body[19] as u32 * 0x1_0000,
        name: utf8_lossy(&name),
    })
}

/// Up to `count` numbers from a place on.
pub open spec fn numbers(body: Seq<u8>, at: int, count: int) -> Seq<u16> {
    let have = (body.len() - at) / 2;
    Seq::new((if count < have { count } else { have }) as nat, |i: int| u16_le(body, at + 2 * i))
}

fn read_numbers(body: &[u8], at: usize, count: usize) -> (out: Vec<u16>)
    requires
        at <= body@.len(),
    ensures
        out@ == numbers(body@, at as int, count as int),
{
    let have: usize = (body.len() - at) / 2;
    let n: usize = if count < have { count } else { have };
    let mut out: Vec<u16> = Vec::new();
    let mut i: usize = 0;
    while i < n
        invariant
            i <= n,
            at + 2 * n <= body@.len(),
            body@.len() == body.len(),
            out@.len() == i,
            forall|j: int| 0 <= j < i ==> #[trigger] out@[j] == u16_le(body@, at + 2 * j),
        decreases n - i,
    {
        out.push(get_le16(body, at + 2 * i));
        i += 1;
    }
    assert(out@ =~= numbers(body@, at as int, count as int));
    out
}

/// The opcodes out of a command list reply: as many as it counts, as far as they are there.
pub open spec fn command_list(body: Seq<u8>) -> Seq<u16> {
    if body.len() < 4 { Seq::empty() } else { numbers(body, 4, u16_le(body, 0) as int) }
}

/// The opcodes out of a command list reply.
pub fn commands(body: &[u8]) -> (out: Vec<u16>)
    ensures
        out@ == command_list(body@),
{
    if body.len() < 4 {
        return Vec::new();
    }
    read_numbers(body, 4, get_le16(body, 0) as usize)
}

/// The names of the bits that are set, among the first `n`.
pub open spec fn set_names(bits: u32, n: nat) -> Seq<Seq<char>>
    decreases n,
{
    if n == 0 {
        Seq::empty()
    } else if bits & (1u32 << ((n - 1) as u32)) != 0 {
        set_names(bits, (n - 1) as nat).push(SETTINGS@[n - 1]@)
    } else {
        set_names(bits, (n - 1) as nat)
    }
}

/// The settings that are on, by name, with a space between them.
pub fn settings(bits: u32) -> (out: String)
    ensures
        out@ == join(set_names(bits, 16), " "@),
{
    let mut on: Vec<String> = Vec::new();
    let mut i: usize = 0;
    assert(views(on@) =~= set_names(bits, 0));
    while i < 16
        invariant
            i <= 16,
            views(on@) == set_names(bits, i as nat),
        decreases 16 - i,
    {
        let ghost before = views(on@);
        if bits & (1u32 << (i as u32)) != 0 {
            on.push(SETTINGS[i].to_owned());
            assert(views(on@) =~= before.push(SETTINGS@[i as int]@));
        }
        i += 1;
    }
    joined(&on, " ")
}

/// What a controller lacks, by name.
pub open spec fn option_names(bits: u32) -> Seq<char> {
    if bits & 1 != 0 && bits & 2 != 0 {
        "external-config public-address"@
    } else if bits & 1 != 0 {
        "external-config"@
    } else if bits & 2 != 0 {
        "public-address"@
    } else {
        "none"@
    }
}

/// What a controller lacks, by name.
pub fn options(bits: u32) -> (out: String)
    ensures
        out@ == option_names(bits),
{
    if bits & 1 != 0 && bits & 2 != 0 {
        "external-config public-address".to_owned()
    } else if bits & 1 != 0 {
        "external-config".to_owned()
    } else if bits & 2 != 0 {
        "public-address".to_owned()
    } else {
        "none".to_owned()
    }
}

/// The needed commands the kernel does not know, by name, among the first `n`.
pub open spec fn missing_names(known: Seq<u16>, n: nat) -> Seq<Seq<char>>
    decreases n,
{
    if n == 0 {
        Seq::empty()
    } else if known.contains(NEEDED_OPCODES@[n - 1]) {
        missing_names(known, (n - 1) as nat)
    } else {
        missing_names(known, (n - 1) as nat).push(NEEDED_NAMES@[n - 1]@)
    }
}

fn knows(known: &Vec<u16>, opcode: u16) -> (r: bool)
    ensures
        r == known@.contains(opcode),
{
    let mut i: usize = 0;
    while i < known.len()
        invariant
            i <= known@.len(),
            forall|j: int| 0 <= j < i ==> known@[j] != opcode,
        decreases known@.len() - i,
    {
        if known[i] == opcode {
            return true;
        }
        i += 1;
    }
    false
}

/// The needed commands the kernel does not know, by name.
pub fn missing(known: &Vec<u16>) -> (out: Vec<String>)
    ensures
        views(out@) == missing_names(known@, 11),
{
    let mut out: Vec<String> = Vec::new();
    let mut i: usize = 0;
    assert(views(out@) =~= missing_names(known@, 0));
    while i < 11
        invariant
            i <= 11,
            views(out@) == missing_names(known@, i as nat),
        decreases 11 - i,
    {
        let ghost before = views(out@);
        if !knows(known, NEEDED_OPCODES[i]) {
            out.push(NEEDED_NAMES[i].to_owned());
            assert(views(out@) =~= before.push(NEEDED_NAMES@[i as int]@));
        }
        i += 1;
    }
    out
}

/// What is said of a version reply.
pub fn version_line(v: &[u8]) -> (out: String)
    ensures
        out@ == (if v@.len() >= 3 {
            "[mgmt] version "@ + dec(v@[0] as nat) + "."@ + dec(u16_le(v@, 1) as nat)
        } else {
            "[mgmt] version reply of "@ + dec(v@.len()) + " bytes"@
        }),
{
    if v.len() >= 3 {
        let mut out = "[mgmt] version ".to_owned();
        put_dec(&mut out, v[0] as u64);
        out.append(".");
        put_dec(&mut out, get_le16(v, 1) as u64);
        out
    } else {
        let mut out = "[mgmt] version reply of ".to_owned();
        put_dec(&mut out, v.len() as u64);
        out.append(" bytes");
        out
    }
}

/// What is said of a command list reply: how many commands are known, and which of the needed
/// ones are missing.
pub fn commands_lines(list: &[u8]) -> (out: (String, String))
    ensures
        out.0@ == "[mgmt] "@ + dec(command_list(list@).len()) + " commands known"@,
        out.1@ == (if missing_names(command_list(list@), 11).len() == 0 {
            "[mgmt] every command the accessory needs is there"@
        } else {
            "[mgmt] missing: "@ + join(missing_names(command_list(list@), 11), " "@)
        }),
{
    let known = commands(list);
    let lacking = missing(&known);
    let mut first = "[mgmt] ".to_owned();
    put_dec(&mut first, known.len() as u64);
    first.append(" commands known");
    assert(views(lacking@).len() == lacking@.len());
    let second = if lacking.len() == 0 {
        "[mgmt] every command the accessory needs is there".to_owned()
    } else {
        let mut s = "[mgmt] missing: ".to_owned();
        s.append(joined(&lacking, " ").as_str());
        s
    };
    (first, second)
}

/// What is said of the controller: its address, class and name, and its settings.
pub fn info_lines(i: &Info) -> (out: (String, String, String))
    ensures
        out.0@ == "[mgmt] controller "@ + mac_text(i.address@) + " class 0x"@
            + zero_pad(hex(i.class as nat), 6) + " name "@ + debug_text(i.name@),
        out.1@ == "[mgmt] supported: "@ + join(set_names(i.supported, 16), " "@),
        out.2@ == "[mgmt] current:   "@ + join(set_names(i.current, 16), " "@),
{
    let mut first = "[mgmt] controller ".to_owned();
    first.append(mac(&i.address).as_str());
    first.append(" class 0x");
    put_hex(&mut first, i.class as u64, 6);
    first.append(" name ");
    first.append(quoted(i.name.as_str()).as_str());
    let mut second = "[mgmt] supported: ".to_owned();
    second.append(settings(i.supported).as_str());
    let mut third = "[mgmt] current:   ".to_owned();
    third.append(settings(i.current).as_str());
    (first, second, third)
}

/// Numbers as text.
pub open spec fn decimals(list: Seq<u16>) -> Seq<Seq<char>> {
    Seq::new(list.len(), |i: int| dec(list[i] as nat))
}

fn decimal_texts(list: &Vec<u16>) -> (out: Vec<String>)
    ensures
        views(out@) == decimals(list@),
{
    let mut out: Vec<String> = Vec::new();
    let mut i: usize = 0;
    while i < list.len()
        invariant
            i <= list@.len(),
            out@.len() == i,
            forall|j: int| 0 <= j < i ==> (#[trigger] out@[j])@ == dec(list@[j] as nat),
        decreases list@.len() - i,
    {
        let mut t = String::new();
        put_dec(&mut t, list[i] as u64);
        assert(t@ =~= dec(list@[i as int] as nat));
        out.push(t);
        i += 1;
    }
    assert(views(out@) =~= decimals(list@));
    out
}

/// What is said of the list of controllers that are not configured.
pub fn unconfigured(list: &[u8]) -> (out: String)
    ensures
        out@ == (if list@.len() >= 2 {
            let found = numbers(list@, 2, u16_le(list@, 0) as int);
            "[mgmt] unconfigured controllers: "@ + (if found.len() == 0 {
                "none"@
            } else {
                join(decimals(found), " "@)
            })
        } else {
            "[mgmt] unconfigured list: "@ + dec(list@.len()) + " byte reply"@
        }),
{
    if list.len() >= 2 {
        let found = read_numbers(list, 2, get_le16(list, 0) as usize);
        let mut out = "[mgmt] unconfigured controllers: ".to_owned();
        if found.len() == 0 {
            out.append("none");
        } else {
            let texts = decimal_texts(&found);
            out.append(joined(&texts, " ").as_str());
        }
        out
    } else {
        let mut out = "[mgmt] unconfigured list: ".to_owned();
        put_dec(&mut out, list.len() as u64);
        out.append(" byte reply");
        out
    }
}

/// What is said of a controller's configuration.
pub fn config_line(b: &[u8]) -> (out: String)
    ensures
        out@ == (if b@.len() >= 10 {
            "[mgmt] config: manufacturer 0x"@ + zero_pad(hex(u16_le(b@, 0) as nat), 4) + ", supported "@
                + option_names(u32_le(b@, 2)) + ", missing "@ + option_names(u32_le(b@, 6))
        } else {
            "[mgmt] config info: "@ + dec(b@.len()) + " byte reply"@
        }),
{
    if b.len() >= 10 {
        let mut out = "[mgmt] config: manufacturer 0x".to_owned();
        put_hex(&mut out, get_le16(b, 0) as u64, 4);
        out.append(", supported ");
        out.append(options(get_le32(b, 2)).as_str());
        out.append(", missing ");
        out.append(options(get_le32(b, 6)).as_str());
        out
    } else {
        let mut out = "[mgmt] config info: ".to_owned();
        put_dec(&mut out, b.len() as u64);
        out.append(" byte reply");
        out
    }
}

/// A command says what it is, which controller it is for and how long its parameters are, and
/// carries them behind that.
pub proof fn commands_read_as_packets(opcode: u16, index: u16, params: Seq<u8>)
    requires
        params.len() <= 0xffff,
    ensures
        ({
            let b = command_bytes(opcode, index, params);
            &&& u16_le(b, 0) == opcode
            &&& u16_le(b, 2) == index
            &&& u16_le(b, 4) == params.len()
            &&& b.subrange(HEADER as int, HEADER + u16_le(b, 4)) == params
        }),
{
    let b = command_bytes(opcode, index, params);
    assert(b.subrange(0, 2) =~= le16(opcode));
    assert(b.subrange(2, 4) =~= le16(index));
    assert(b.subrange(4, 6) =~= le16(params.len() as u16));
    crate::bytes::integers_read_back(b, 0, opcode, 0);
    crate::bytes::integers_read_back(b, 2, index, 0);
    crate::bytes::integers_read_back(b, 4, params.len() as u16, 0);
    assert(b.subrange(HEADER as int, HEADER + params.len()) =~= params);
}

/// A command list gives the numbers it counts, two bytes each behind the two counts, least significant
/// byte first, and no more than there are.
pub proof fn listed_commands_are_read(body: Seq<u8>, i: int)
    ensures
        ({
            let have = (body.len() - 4) / 2;
            let said = body[0] + 256 * body[1];
            let list = command_list(body);
            &&& body.len() < 4 ==> list.len() == 0
            &&& body.len() >= 4 ==> list.len() == (if said < have { said } else { have })
            &&& 0 <= i < list.len() ==> 4 + 2 * i + 1 < body.len() && list[i] == body[4 + 2 * i] + 256 * body[4 + 2 * i + 1]
        }),
{
}

/// A setting is named behind those of the lower bits, and none is named where no bit is set.
pub proof fn settings_are_named_in_order(bits: u32, k: u32)
    requires
        k < 16,
        bits < 1u32 << k,
    ensures
        set_names(bits | (1u32 << k), 16) == set_names(bits, 16).push(SETTINGS@[k as int]@),
        set_names(0, 16).len() == 0,
{
    let more = bits | (1u32 << k);
    assert((bits | (1u32 << k)) & (1u32 << k) != 0 && bits & (1u32 << k) == 0) by (bit_vector)
        requires
            k < 16,
            bits < 1u32 << k,
    ;
    assert forall|j: u32| j < 16 && j != k implies (more & #[trigger] (1u32 << j) != 0) == (bits & (1u32 << j) != 0) by {
        assert(((bits | (1u32 << k)) & (1u32 << j) != 0) == (bits & (1u32 << j) != 0)) by (bit_vector)
            requires
                k < 16,
                j < 16,
                j != k,
        ;
    }
    assert forall|j: u32| k <= j < 16 implies bits & #[trigger] (1u32 << j) == 0 by {
        assert(bits & (1u32 << j) == 0) by (bit_vector)
            requires
                k <= j,
                j < 16,
                bits < 1u32 << k,
        ;
    }
    assert forall|j: u32| j < 16 implies 0u32 & #[trigger] (1u32 << j) == 0 by {
        assert(0u32 & (1u32 << j) == 0) by (bit_vector);
    }
    names_below(bits, more, k, 16);
    nothing_named(16);
}

proof fn nothing_named(n: nat)
    requires
        n <= 16,
        forall|j: u32| j < 16 ==> 0u32 & #[trigger] (1u32 << j) == 0,
    ensures
        set_names(0, n).len() == 0,
    decreases n,
{
    if n > 0 {
        nothing_named((n - 1) as nat);
        let j = (n - 1) as u32;
        assert(0u32 & (1u32 << j) == 0);
    }
}

proof fn names_below(bits: u32, more: u32, k: u32, n: nat)
    requires
        k < 16,
        n <= 16,
        more & (1u32 << k) != 0,
        forall|j: u32| j < 16 && j != k ==> (more & #[trigger] (1u32 << j) != 0) == (bits & (1u32 << j) != 0),
        forall|j: u32| k <= j < 16 ==> bits & #[trigger] (1u32 << j) == 0,
    ensures
        n <= k ==> set_names(more, n) == set_names(bits, n),
        n > k ==> set_names(more, n) == set_names(bits, n).push(SETTINGS@[k as int]@),
    decreases n,
{
    if n > 0 {
        names_below(bits, more, k, (n - 1) as nat);
        let j = (n - 1) as u32;
        assert(1u32 << j == 1u32 << ((n - 1) as u32));
        if j != k {
            assert((more & (1u32 << j) != 0) == (bits & (1u32 << j) != 0));
        }
        if j >= k {
            assert(bits & (1u32 << j) == 0);
        }
    }
}

/// What is missing is what the kernel does not know: nothing where it knows every needed command, and
/// one name for each command that it lacks, in order.
pub proof fn what_is_missing(known: Seq<u16>, k: int)
    requires
        0 <= k < 11,
    ensures
        missing_names(known, 11).len() == 0 <==> (forall|j: int| 0 <= j < 11 ==> known.contains(#[trigger] NEEDED_OPCODES@[j])),
        !known.contains(NEEDED_OPCODES@[k]) ==> missing_names(known, 11).contains(NEEDED_NAMES@[k]@),
        known.contains(NEEDED_OPCODES@[k]) ==> missing_names(known, 11).len() < 11,
        forall|m: int| #![trigger missing_names(known, 11)[m]] 0 <= m < missing_names(known, 11).len() ==> (exists|j: int| 0 <= j < 11
            && !known.contains(#[trigger] NEEDED_OPCODES@[j]) && missing_names(known, 11)[m] == NEEDED_NAMES@[j]@),
{
    missing_among(known, k, 11);
}

proof fn missing_among(known: Seq<u16>, k: int, n: nat)
    requires
        n <= 11,
    ensures
        missing_names(known, n).len() <= n,
        missing_names(known, n).len() == 0 <==> (forall|j: int| 0 <= j < n ==> known.contains(#[trigger] NEEDED_OPCODES@[j])),
        0 <= k < n && !known.contains(NEEDED_OPCODES@[k]) ==> missing_names(known, n).contains(NEEDED_NAMES@[k]@),
        0 <= k < n && known.contains(NEEDED_OPCODES@[k]) ==> missing_names(known, n).len() < n,
        forall|m: int| #![trigger missing_names(known, n)[m]] 0 <= m < missing_names(known, n).len() ==> (exists|j: int| 0 <= j < n
            && !known.contains(#[trigger] NEEDED_OPCODES@[j]) && missing_names(known, n)[m] == NEEDED_NAMES@[j]@),
    decreases n,
{
    if n > 0 {
        let q = (n - 1) as nat;
        missing_among(known, k, q);
        let front = missing_names(known, q);
        let all = missing_names(known, n);
        let last = NEEDED_OPCODES@[n - 1];
        if known.contains(last) {
            assert(all == front);
        } else {
            assert(all == front.push(NEEDED_NAMES@[n - 1]@));
            assert(all[all.len() - 1] == NEEDED_NAMES@[n - 1]@);
            if 0 <= k < n - 1 && !known.contains(NEEDED_OPCODES@[k]) {
                let m = choose|m: int| 0 <= m < front.len() && front[m] == NEEDED_NAMES@[k]@;
                assert(all[m] == NEEDED_NAMES@[k]@);
            }
            assert forall|m: int| #![trigger all[m]] 0 <= m < all.len() implies (exists|j: int| 0 <= j < n
                && !known.contains(#[trigger] NEEDED_OPCODES@[j]) && all[m] == NEEDED_NAMES@[j]@) by {
                if m < front.len() {
                    assert(all[m] == front[m]);
                } else {
                    assert(!known.contains(NEEDED_OPCODES@[n - 1]));
                }
            }
        }
    }
}

/// What was written as a command is read as a packet with the same number, controller and parameters, and
/// what follows it makes no difference. One that is cut short is refused.
pub proof fn a_written_packet_is_read(buf: &[u8], opcode: u16, index: u16, params: Seq<u8>, more: Seq<u8>, r: Result<Event, String>)
    requires
        call_ensures(event, (buf,), r),
        params.len() <= 0xffff,
    ensures
        buf@ == le16(opcode) + le16(index) + le16(params.len() as u16) + params + more ==> (r matches Ok(e)
            && e.code == opcode && e.index == index && e.body@ == params),
        buf@ + more == le16(opcode) + le16(index) + le16(params.len() as u16) + params && more.len() > 0 ==> r is Err,
{
    let head = le16(opcode) + le16(index) + le16(params.len() as u16);
    let s = head + params;
    assert(s.subrange(0, 2) =~= le16(opcode));
    assert(s.subrange(2, 4) =~= le16(index));
    assert(s.subrange(4, 6) =~= le16(params.len() as u16));
    if buf@ == s + more {
        let b = buf@;
        assert(b.subrange(0, 2) =~= le16(opcode));
        assert(b.subrange(2, 4) =~= le16(index));
        assert(b.subrange(4, 6) =~= le16(params.len() as u16));
        crate::bytes::integers_read_back(b, 0, opcode, 0);
        crate::bytes::integers_read_back(b, 2, index, 0);
        crate::bytes::integers_read_back(b, 4, params.len() as u16, 0);
        assert(b.subrange(6, 6 + params.len() as int) =~= params);
    }
    if buf@ + more == s && more.len() > 0 && buf@.len() >= 6 {
        let b = buf@;
        assert(b.subrange(4, 6) =~= s.subrange(4, 6)) by {
            assert(s.subrange(4, 6) =~= (b + more).subrange(4, 6));
        }
        crate::bytes::integers_read_back(b, 4, params.len() as u16, 0);
        assert((b + more).len() == b.len() + more.len());
    }
}

/// What a controller says of itself is read from where it stands: its address, what it supports, what is
/// on, its class and its name up to the first zero.
pub proof fn an_info_reply_is_read(
    body: &[u8],
    address: Seq<u8>,
    between: Seq<u8>,
    supported: u32,
    current: u32,
    class: Seq<u8>,
    name: Seq<u8>,
    r: Result<Info, String>,
)
    requires
        call_ensures(info, (body,), r),
        address.len() == 6,
        between.len() == 3,
        class.len() == 3,
        body@ == address + between + crate::bytes::le32(supported) + crate::bytes::le32(current) + class + name,
    ensures
        r matches Ok(i) && i.address@ == address && i.supported == supported && i.current == current
            && i.class == class[0] + 0x100 * class[1] + 0x1_0000 * class[2] && i.name@ == lossy(until_zero(name)),
{
    let b = body@;
    assert(b.subrange(0, 6) =~= address);
    assert(b.subrange(9, 13) =~= crate::bytes::le32(supported));
    assert(b.subrange(13, 17) =~= crate::bytes::le32(current));
    crate::bytes::integers_read_back(b, 9, 0, supported);
    crate::bytes::integers_read_back(b, 13, 0, current);
    assert(b[17] == class[0] && b[18] == class[1] && b[19] == class[2]);
    assert(b.skip(20) =~= name);
}

/// A command waits for its own answer: a completion or a status that names it, of which only a completion
/// without an error is a success, with what stands behind the status.
pub proof fn a_command_waits_for_its_answer(opcode: u16, e: Event, other: u16, status: u8, data: Seq<u8>, r: CallStep)
    requires
        call_ensures(call_step, (opcode, &e), r),
        e.body@ == le16(other) + seq![status] + data,
    ensures
        other != opcode ==> r is Wait,
        e.code != 1 && e.code != 2 ==> r is Wait,
        other == opcode && e.code == 1 && status == 0 ==> (r matches CallStep::Done(d) && d@ == data),
        other == opcode && e.code == 1 && status != 0 ==> r is Refused,
        other == opcode && e.code == 2 ==> r is Refused,
{
    let b = e.body@;
    assert(b.subrange(0, 2) =~= le16(other));
    crate::bytes::integers_read_back(b, 0, other, 0);
    assert(b[2] == status);
    assert(b.skip(3) =~= data);
}

} // verus!
