//! The MFi authentication coprocessor: its registers, and the wire a dongle serves it on.
//!
//!   certificate : [0x01]                   -> [status][len:2][cert]
//!   sign        : [0x02][len:2][challenge] -> [status][len:2][signature]
//!   generation  : [0x03]                   -> [status][len:2][major:1]

use vstd::prelude::*;

use crate::bytes::{append, be16, copy_range, get_be16, put_be16, u16_be};
use crate::text::{dec, find_char, first, hex, hex2_upper, join, joined, put_dec, put_hex2_upper};
use crate::text::{read_signed32, read_unsigned, same_text, signed32, strip_all, stripped, unsigned, upper, upper_char, views, zero_pad};

verus! {

pub const CHALLENGE_MIN: usize = 1;
pub const CHALLENGE_MAX: usize = 128;

pub const REG_DEVICE_VERSION: u8 = 0x00;
pub const REG_PROTOCOL_MAJOR: u8 = 0x02;
pub const REG_ERROR_CODE: u8 = 0x05;
pub const REG_AUTH_CONTROL_STATUS: u8 = 0x10;
pub const REG_SIGNATURE_LENGTH: u8 = 0x11;
pub const REG_SIGNATURE_DATA: u8 = 0x12;
pub const REG_CHALLENGE_LENGTH: u8 = 0x20;
pub const REG_CHALLENGE_DATA: u8 = 0x21;
pub const REG_CERT_LENGTH: u8 = 0x30;
pub const REG_CERT_DATA: u8 = 0x31;

pub const AUTH_START: u8 = 0x01;
pub const AUTH_DONE: u8 = 0x10;

pub const DEV_ADDR_CANDIDATES: [u16; 2] = [0x10, 0x11];

pub const PORT: u16 = 5000;
pub const OP_GET_CERT: u8 = 0x01;
pub const OP_SIGN: u8 = 0x02;
pub const OP_PROTOCOL_MAJOR: u8 = 0x03;
pub const STATUS_OK: u8 = 0;
pub const STATUS_ERR: u8 = 1;

/// An RSA (2.x) certificate is longer than this, an ECDSA (3.0) one shorter. Used where the
/// register that says the generation reads as garbage.
pub const CERT_LEN_SPLIT: usize = 768;

/// What goes wrong with a coprocessor.
#[derive(Debug)]
pub enum MfiError {
    Timeout(String),
    ChallengeSize(usize),
    AuthFailed { error_code: Option<u8> },
    NoChip { probed: Vec<u16> },
    Io(String),
}

/// A text in upper case, as far as its letters are ASCII.
pub open spec fn upper_text(s: Seq<char>) -> Seq<char> {
    Seq::new(s.len(), |i: int| upper(s[i]))
}

/// An address as text: at least two hexadecimal digits.
pub open spec fn address_text(a: u16) -> Seq<char> {
    "0x"@ + upper_text(zero_pad(hex(a as nat), 2))
}

/// Addresses as text.
pub open spec fn address_texts(list: Seq<u16>) -> Seq<Seq<char>> {
    Seq::new(list.len(), |i: int| address_text(list[i]))
}

fn write_address(a: u16) -> (out: String)
    ensures
        out@ == address_text(a),
{
    let mut low = String::new();
    crate::text::put_hex(&mut low, a as u64, 2);
    let ghost digits = zero_pad(hex(a as nat), 2);
    assert(low@ =~= digits);
    let chars = crate::text::chars_of(low.as_str());
    let mut out = "0x".to_owned();
    let mut i: usize = 0;
    assert(out@ =~= "0x"@ + upper_text(digits).take(0));
    while i < chars.len()
        invariant
            i <= chars@.len(),
            chars@ == digits,
            out@ == "0x"@ + upper_text(digits).take(i as int),
        decreases chars@.len() - i,
    {
        out.push(upper_char(chars[i]));
        i += 1;
        assert(out@ =~= "0x"@ + upper_text(digits).take(i as int));
    }
    assert(upper_text(digits).take(i as int) =~= upper_text(digits));
    out
}

impl MfiError {
    /// The failure in words.
    pub open spec fn words(self) -> Seq<char> {
        match self {
            MfiError::Timeout(what) => "timeout during "@ + what@,
            MfiError::ChallengeSize(n) => "challenge must be 1..=128 bytes, got "@ + dec(n as nat),
            MfiError::AuthFailed { error_code: Some(c) } => "auth failed (error code 0x"@ + hex2_upper(c) + ")"@,
            MfiError::AuthFailed { error_code: None } => "auth failed (error unreadable)"@,
            MfiError::NoChip { probed } => "no coprocessor answered at "@ + join(address_texts(probed@), "/"@),
            MfiError::Io(e) => "i2c io: "@ + e@,
        }
    }

    /// The failure in words.
    pub fn text(&self) -> (out: String)
        ensures
            out@ == self.words(),
    {
        match self {
            MfiError::Timeout(what) => {
                let mut out = "timeout during ".to_owned();
                out.append(what.as_str());
                out
            },
            MfiError::ChallengeSize(n) => {
                let mut out = "challenge must be 1..=128 bytes, got ".to_owned();
                put_dec(&mut out, *n as u64);
                out
            },
            MfiError::AuthFailed { error_code } => match error_code {
                Some(c) => {
                    let mut out = "auth failed (error code 0x".to_owned();
                    put_hex2_upper(&mut out, *c);
                    out.append(")");
                    out
                },
                None => "auth failed (error unreadable)".to_owned(),
            },
            MfiError::NoChip { probed } => {
                let mut texts: Vec<String> = Vec::new();
                let mut i: usize = 0;
                while i < probed.len()
                    invariant
                        i <= probed@.len(),
                        texts@.len() == i,
                        forall|j: int| 0 <= j < i ==> (#[trigger] texts@[j])@ == address_text(probed@[j]),
                    decreases probed@.len() - i,
                {
                    texts.push(write_address(probed[i]));
                    i += 1;
                }
                assert(views(texts@) =~= address_texts(probed@));
                let mut out = "no coprocessor answered at ".to_owned();
                out.append(joined(&texts, "/").as_str());
                out
            },
            MfiError::Io(e) => {
                let mut out = "i2c io: ".to_owned();
                out.append(e.as_str());
                out
            },
        }
    }
}

/// The MFi coprocessor, on a local bus or behind a bridge.
pub trait AuthCoprocessor {
    fn protocol_major(&mut self) -> Result<u8, MfiError>;

    fn read_certificate(&mut self) -> Result<Vec<u8>, MfiError>;

    fn generate_challenge_response(&mut self, challenge: &[u8]) -> Result<Vec<u8>, MfiError>;
}

/// No coprocessor at hand: every operation fails.
pub struct NoCoprocessor;

impl AuthCoprocessor for NoCoprocessor {
    fn protocol_major(&mut self) -> (r: Result<u8, MfiError>)
        ensures
            r matches Err(MfiError::Io(e)) && e@ == "no MFi coprocessor"@,
    {
        Err(MfiError::Io("no MFi coprocessor".to_owned()))
    }

    fn read_certificate(&mut self) -> (r: Result<Vec<u8>, MfiError>)
        ensures
            r matches Err(MfiError::Io(e)) && e@ == "no MFi coprocessor"@,
    {
        Err(MfiError::Io("no MFi coprocessor".to_owned()))
    }

    fn generate_challenge_response(&mut self, challenge: &[u8]) -> (r: Result<Vec<u8>, MfiError>)
        ensures
            r matches Err(MfiError::Io(e)) && e@ == "no MFi coprocessor"@,
    {
        Err(MfiError::Io("no MFi coprocessor".to_owned()))
    }
}

/// A reply on the wire: the status, the length of the data, the data.
pub open spec fn reply_bytes(status: u8, data: Seq<u8>) -> Seq<u8> {
    seq![status] + be16((data.len() % 0x1_0000) as u16) + data
}

/// A reply on the wire.
pub fn respond(status: u8, data: &[u8]) -> (msg: Vec<u8>)
    ensures
        msg@ == reply_bytes(status, data@),
{
    let mut msg: Vec<u8> = Vec::new();
    msg.push(status);
    assert(msg@ =~= seq![status]);
    put_be16(&mut msg, (data.len() % 0x1_0000) as u16);
    append(&mut msg, data);
    msg
}

/// A reply says how long it is, and carries its data behind that.
pub proof fn a_reply_carries_its_data(status: u8, data: Seq<u8>)
    requires
        data.len() <= 0xffff,
    ensures
        reply_bytes(status, data)[0] == status,
        u16_be(reply_bytes(status, data), 1) == data.len(),
        reply_bytes(status, data).skip(3) == data,
{
    let r = reply_bytes(status, data);
    assert(r.subrange(1, 3) =~= be16(data.len() as u16));
    crate::bytes::integers_read_back(r, 1, data.len() as u16, 0);
    assert(r.skip(3) =~= data);
}

/// What the bytes a client sent ask for.
pub enum Ask {
    /// Not enough bytes yet.
    More,
    Certificate,
    Sign(Vec<u8>),
    Generation,
    /// A challenge length that is not read: a framing error, so an error goes out and the
    /// connection closes.
    Refuse,
    /// Nothing we know: the connection closes.
    Close,
}

/// Whether a challenge length is read.
pub open spec fn fits(n: int) -> bool {
    CHALLENGE_MIN <= n <= CHALLENGE_MAX
}

/// Reads the next request off what a client sent. Also says how many bytes it took.
pub fn next_request(input: &[u8]) -> (r: (Ask, usize))
    ensures
        match r.0 {
            Ask::More => r.1 == 0 && (input@.len() == 0 || (input@[0] == OP_SIGN && (input@.len() < 3
                || (fits(u16_be(input@, 1) as int) && input@.len() < 3 + u16_be(input@, 1))))),
            Ask::Certificate => input@.len() > 0 && input@[0] == OP_GET_CERT && r.1 == 1,
            Ask::Generation => input@.len() > 0 && input@[0] == OP_PROTOCOL_MAJOR && r.1 == 1,
            Ask::Sign(challenge) => {
                &&& input@.len() >= 3 + u16_be(input@, 1)
                &&& input@[0] == OP_SIGN
                &&& fits(u16_be(input@, 1) as int)
                &&& challenge@ == input@.subrange(3, 3 + u16_be(input@, 1))
                &&& r.1 == 3 + u16_be(input@, 1)
            },
            Ask::Refuse => input@.len() >= 3 && input@[0] == OP_SIGN && !fits(u16_be(input@, 1) as int) && r.1 == 3,
            Ask::Close => input@.len() > 0 && input@[0] != OP_GET_CERT && input@[0] != OP_SIGN
                && input@[0] != OP_PROTOCOL_MAJOR && r.1 == 1,
        },
{
    if input.len() == 0 {
        return (Ask::More, 0);
    }
    let op: u8 = input[0];
    if op == OP_GET_CERT {
        return (Ask::Certificate, 1);
    }
    if op == OP_PROTOCOL_MAJOR {
        return (Ask::Generation, 1);
    }
    if op != OP_SIGN {
        return (Ask::Close, 1);
    }
    if input.len() < 3 {
        return (Ask::More, 0);
    }
    let n: usize = get_be16(input, 1) as usize;
    if n < CHALLENGE_MIN || n > CHALLENGE_MAX {
        return (Ask::Refuse, 3);
    }
    if input.len() < 3 + n {
        return (Ask::More, 0);
    }
    (Ask::Sign(copy_range(input, 3, 3 + n)), 3 + n)
}

/// The reply for what the coprocessor came back with.
pub open spec fn reply_for(outcome: Result<Vec<u8>, MfiError>) -> Seq<u8> {
    match outcome {
        Ok(data) => reply_bytes(STATUS_OK, data@),
        Err(_) => reply_bytes(STATUS_ERR, Seq::empty()),
    }
}

/// The reply for what the coprocessor came back with.
pub fn reply(outcome: &Result<Vec<u8>, MfiError>) -> (msg: Vec<u8>)
    ensures
        msg@ == reply_for(*outcome),
{
    match outcome {
        Ok(data) => respond(STATUS_OK, data),
        Err(_) => {
            let none: Vec<u8> = Vec::new();
            assert(none@ =~= Seq::<u8>::empty());
            respond(STATUS_ERR, &none)
        },
    }
}

/// The generation a coprocessor has: what its register says where that makes sense, else by the
/// length of its certificate, where it has one.
pub open spec fn generation_of(register: Result<u8, MfiError>, certificate: Option<int>) -> Option<u8> {
    if register matches Ok(m) && (m == 2 || m == 3) {
        Some(register->Ok_0)
    } else {
        match certificate {
            Some(len) => Some(if len < CERT_LEN_SPLIT { 3u8 } else { 2u8 }),
            None => None,
        }
    }
}

/// The generation by what the register and the certificate say.
pub fn generation(register: &Result<u8, MfiError>, certificate: Option<usize>) -> (r: Option<u8>)
    ensures
        r == generation_of(
            *register,
            match certificate {
                Some(n) => Some(n as int),
                None => None,
            },
        ),
{
    if let Ok(m) = register {
        if *m == 2 || *m == 3 {
            return Some(*m);
        }
    }
    match certificate {
        Some(len) => Some(if len < CERT_LEN_SPLIT { 3 } else { 2 }),
        None => None,
    }
}

/// Whether a register says a generation there is.
pub open spec fn sensible(register: Result<u8, MfiError>) -> bool {
    register matches Ok(m) && (m == 2 || m == 3)
}

/// How long a certificate is, where one was read.
pub open spec fn length_of(outcome: Result<Vec<u8>, MfiError>) -> Option<int> {
    match outcome {
        Ok(data) => Some(data@.len() as int),
        Err(_) => None,
    }
}

/// Best-effort generation of a coprocessor: its register is read, and behind it the certificate
/// where the register makes no sense. What the two said decides the answer, and whatever they said,
/// it is one of the two generations there are.
pub fn protocol_major<C: AuthCoprocessor>(chip: &mut C) -> (r: Option<u8>)
    ensures
        exists|first: &mut C, register: Result<u8, MfiError>| {
            &&& #[trigger] call_ensures(C::protocol_major, (first,), register)
            &&& *first == *old(chip)
            &&& if sensible(register) {
                r == generation_of(register, None) && *final(chip) == *final(first)
            } else {
                exists|second: &mut C, outcome: Result<Vec<u8>, MfiError>| {
                    &&& #[trigger] call_ensures(C::read_certificate, (second,), outcome)
                    &&& *second == *final(first)
                    &&& r == generation_of(register, length_of(outcome))
                    &&& *final(chip) == *final(second)
                }
            }
        },
        r matches Some(m) ==> m == 2 || m == 3,
{
    let register = chip.protocol_major();
    let sensible = match &register {
        Ok(m) => *m == 2 || *m == 3,
        Err(_) => false,
    };
    if sensible {
        return generation(&register, None);
    }
    let certificate: Option<usize> = match chip.read_certificate() {
        Ok(c) => Some(c.len()),
        Err(_) => None,
    };
    generation(&register, certificate)
}

/// The reply for a generation, where it is known.
pub open spec fn reply_of(major: Option<u8>) -> Seq<u8> {
    match major {
        Some(m) => reply_bytes(STATUS_OK, seq![m]),
        None => reply_bytes(STATUS_ERR, Seq::empty()),
    }
}

/// The reply for a generation, where it is known.
pub fn generation_reply(major: Option<u8>) -> (msg: Vec<u8>)
    ensures
        msg@ == reply_of(major),
{
    let mut data: Vec<u8> = Vec::new();
    match major {
        Some(m) => {
            data.push(m);
            assert(data@ =~= seq![m]);
            respond(STATUS_OK, &data)
        },
        None => {
            assert(data@ =~= Seq::<u8>::empty());
            respond(STATUS_ERR, &data)
        },
    }
}

/// What a request is answered with, and whether the connection stays open.
pub struct Served {
    pub reply: Option<Vec<u8>>,
    pub open: bool,
}

/// Answers one request with a coprocessor: the certificate, a signature of the challenge or the
/// generation, each as the coprocessor gave it, or an error where it gave none. Only a framing
/// error or an unknown request closes the connection, and then the coprocessor is not asked.
pub fn serve<C: AuthCoprocessor>(chip: &mut C, ask: &Ask) -> (r: Served)
    ensures
        r.open == !(ask is Refuse || ask is Close),
        r.reply is None <==> ask is More || ask is Close,
        ask is More || ask is Close || ask is Refuse ==> *final(chip) == *old(chip),
        match *ask {
            Ask::More => true,
            Ask::Close => true,
            Ask::Refuse => r.reply->0@ == reply_bytes(STATUS_ERR, Seq::empty()),
            Ask::Certificate => exists|c: &mut C, outcome: Result<Vec<u8>, MfiError>| {
                &&& #[trigger] call_ensures(C::read_certificate, (c,), outcome)
                &&& *c == *old(chip)
                &&& r.reply->0@ == reply_for(outcome)
                &&& *final(chip) == *final(c)
            },
            Ask::Sign(challenge) => exists|c: &mut C, data: &[u8], outcome: Result<Vec<u8>, MfiError>| {
                &&& #[trigger] call_ensures(C::generate_challenge_response, (c, data), outcome)
                &&& *c == *old(chip)
                &&& data@ == challenge@
                &&& r.reply->0@ == reply_for(outcome)
                &&& *final(chip) == *final(c)
            },
            Ask::Generation => exists|first: &mut C, register: Result<u8, MfiError>| {
                &&& #[trigger] call_ensures(C::protocol_major, (first,), register)
                &&& *first == *old(chip)
                &&& if sensible(register) {
                    r.reply->0@ == reply_of(generation_of(register, None)) && *final(chip) == *final(first)
                } else {
                    exists|second: &mut C, outcome: Result<Vec<u8>, MfiError>| {
                        &&& #[trigger] call_ensures(C::read_certificate, (second,), outcome)
                        &&& *second == *final(first)
                        &&& r.reply->0@ == reply_of(generation_of(register, length_of(outcome)))
                        &&& *final(chip) == *final(second)
                    }
                }
            },
        },
{
    match ask {
        Ask::More => Served { reply: None, open: true },
        Ask::Close => Served { reply: None, open: false },
        Ask::Refuse => {
            let none: Vec<u8> = Vec::new();
            assert(none@ =~= Seq::<u8>::empty());
            Served { reply: Some(respond(STATUS_ERR, &none)), open: false }
        },
        Ask::Certificate => Served { reply: Some(reply(&chip.read_certificate())), open: true },
        Ask::Sign(challenge) => {
            Served { reply: Some(reply(&chip.generate_challenge_response(challenge))), open: true }
        },
        Ask::Generation => {
            let major = protocol_major(chip);
            Served { reply: Some(generation_reply(major)), open: true }
        },
    }
}

/// Registers and what is written to them.
pub open spec fn writes(list: Seq<(u8, Vec<u8>)>) -> Seq<(u8, Seq<u8>)> {
    Seq::new(list.len(), |i: int| (list[i].0, list[i].1@))
}

/// What is written to have a challenge signed: its length, the challenge, and the start. A
/// challenge of another size is refused.
pub fn challenge_plan(challenge: &[u8]) -> (r: Result<Vec<(u8, Vec<u8>)>, MfiError>)
    ensures
        match r {
            Ok(plan) => fits(challenge@.len() as int) && writes(plan@) == seq![
                (REG_CHALLENGE_LENGTH, be16(challenge@.len() as u16)),
                (REG_CHALLENGE_DATA, challenge@),
                (REG_AUTH_CONTROL_STATUS, seq![AUTH_START]),
            ],
            Err(e) => !fits(challenge@.len() as int) && e == MfiError::ChallengeSize(challenge@.len() as usize),
        },
{
    let n: usize = challenge.len();
    if n < CHALLENGE_MIN || n > CHALLENGE_MAX {
        return Err(MfiError::ChallengeSize(n));
    }
    let mut len: Vec<u8> = Vec::new();
    put_be16(&mut len, n as u16);
    assert(len@ =~= be16(n as u16));
    let mut start: Vec<u8> = Vec::new();
    start.push(AUTH_START);
    assert(start@ =~= seq![AUTH_START]);
    let mut plan: Vec<(u8, Vec<u8>)> = Vec::new();
    plan.push((REG_CHALLENGE_LENGTH, len));
    plan.push((REG_CHALLENGE_DATA, crate::bytes::copy(challenge)));
    plan.push((REG_AUTH_CONTROL_STATUS, start));
    assert(writes(plan@) =~= seq![
        (REG_CHALLENGE_LENGTH, be16(challenge@.len() as u16)),
        (REG_CHALLENGE_DATA, challenge@),
        (REG_AUTH_CONTROL_STATUS, seq![AUTH_START]),
    ]);
    Ok(plan)
}

/// What a write of a register puts on the bus: the register, then the data.
pub fn write_frame(reg: u8, data: &[u8]) -> (frame: Vec<u8>)
    ensures
        frame@ == seq![reg] + data@,
{
    let mut frame: Vec<u8> = Vec::new();
    frame.push(reg);
    assert(frame@ =~= seq![reg]);
    append(&mut frame, data);
    frame
}

/// What a look at the control register comes to.
#[derive(PartialEq, Eq, Structural, Clone, Copy)]
pub enum Poll {
    Done,
    Wait,
    /// The time is up: the error code is read and the authentication failed.
    Failed,
}

/// What a look at the control register comes to. A register that cannot be read is not done.
pub fn poll(status: Option<u8>, expired: bool) -> (r: Poll)
    ensures
        r == (if status == Some(AUTH_DONE) {
            Poll::Done
        } else if expired {
            Poll::Failed
        } else {
            Poll::Wait
        }),
{
    if let Some(s) = status {
        if s == AUTH_DONE {
            return Poll::Done;
        }
    }
    if expired { Poll::Failed } else { Poll::Wait }
}

/// The length a register pair says.
pub fn read_len(v: &[u8]) -> (n: usize)
    requires
        v@.len() >= 2,
    ensures
        n == u16_be(v@, 0),
{
    get_be16(v, 0) as usize
}

/// The bus a daemon is told to use, by number or by device, the first one where it is told
/// nothing it can read.
pub fn bus_of(arg: Option<&str>) -> (bus: u32)
    ensures
        bus == (match arg {
            Some(a) => match unsigned(stripped(a@, "/dev/i2c-"@), 10, 0xffff_ffff) {
                Some(n) => n as u32,
                None => 1,
            },
            None => 1,
        }),
{
    match arg {
        Some(a) => match read_unsigned(strip_all(a, "/dev/i2c-").as_str(), 10, 0xffff_ffff) {
            Some(n) => n as u32,
            None => 1,
        },
        None => 1,
    }
}

/// Where a probe looks for the coprocessor.
pub enum Mode {
    Local { bus: u32, power_gpio: i32 },
    Remote { addr: String },
}

/// What the arguments of a probe have said so far.
pub struct ProbeArgs {
    pub bus: u32,
    pub power_gpio: i32,
    pub remote: Option<Seq<char>>,
}

/// What the arguments of a probe say from a place on, or the first that is not known.
pub open spec fn probe_args(args: Seq<Seq<char>>, i: int, p: ProbeArgs) -> Result<ProbeArgs, Seq<char>>
    decreases args.len() - i,
{
    if i < 0 || i >= args.len() {
        Ok(p)
    } else if args[i] == "--bus"@ {
        if i + 1 < args.len() {
            let n = unsigned(args[i + 1], 10, 0xffff_ffff);
            probe_args(args, i + 2, ProbeArgs { bus: if n is Some { n->0 as u32 } else { p.bus }, ..p })
        } else {
            Ok(p)
        }
    } else if args[i] == "--power-gpio"@ {
        if i + 1 < args.len() {
            let n = signed32(args[i + 1]);
            probe_args(args, i + 2, ProbeArgs { power_gpio: if n is Some { n->0 as i32 } else { p.power_gpio }, ..p })
        } else {
            Ok(p)
        }
    } else if args[i] == "--no-power"@ {
        probe_args(args, i + 1, ProbeArgs { power_gpio: -1i32, ..p })
    } else if args[i] == "--remote"@ {
        if i + 1 < args.len() {
            probe_args(args, i + 2, ProbeArgs { remote: Some(args[i + 1]), ..p })
        } else {
            Ok(ProbeArgs { remote: None, ..p })
        }
    } else if args[i] == "--dongle"@ {
        probe_args(args, i + 1, ProbeArgs { remote: Some("livi-link.local:5000"@), ..p })
    } else {
        Err("unknown argument: "@ + args[i])
    }
}

/// What the arguments of a probe ask for: a remote one where an address is named, with the usual
/// port where it names none, else the local bus.
pub open spec fn probe_mode(args: Seq<Seq<char>>) -> Result<ProbeArgs, Seq<char>> {
    probe_args(args, 0, ProbeArgs { bus: 2, power_gpio: -1i32, remote: None })
}

/// An address with the usual port, where it names none.
pub open spec fn with_port(addr: Seq<char>) -> Seq<char> {
    if first(addr, ':') < addr.len() { addr } else { addr + ":5000"@ }
}

/// Reads the arguments of a probe.
pub fn parse(args: &Vec<String>) -> (r: Result<Mode, String>)
    ensures
        match (r, probe_mode(views(args@))) {
            (Ok(Mode::Remote { addr }), Ok(p)) => p.remote matches Some(a) && addr@ == with_port(a),
            (Ok(Mode::Local { bus, power_gpio }), Ok(p)) => p.remote is None && bus == p.bus
                && power_gpio == p.power_gpio,
            (Err(why), Err(want)) => why@ == want,
            _ => false,
        },
{
    let ghost all = views(args@);
    let mut bus: u32 = 2;
    let mut power_gpio: i32 = -1;
    let mut remote: Option<String> = None;
    let mut i: usize = 0;
    while i < args.len()
        invariant
            i <= args@.len(),
            args@.len() == args.len(),
            all == views(args@),
            probe_mode(all) == probe_args(
                all,
                i as int,
                ProbeArgs {
                    bus,
                    power_gpio,
                    remote: match remote {
                        Some(r) => Some(r@),
                        None => None,
                    },
                },
            ),
        decreases args@.len() - i,
    {
        assert(all[i as int] == args@[i as int]@);
        let a = args[i].as_str();
        let more = args.len() - i >= 2;
        if more {
            assert(all[i + 1] == args@[i + 1]@);
        }
        if same_text(a, "--bus") {
            if !more {
                i = args.len();
            } else {
                if let Some(n) = read_unsigned(args[i + 1].as_str(), 10, 0xffff_ffff) {
                    bus = n as u32;
                }
                i += 2;
            }
        } else if same_text(a, "--power-gpio") {
            if !more {
                i = args.len();
            } else {
                if let Some(n) = read_signed32(args[i + 1].as_str()) {
                    power_gpio = n;
                }
                i += 2;
            }
        } else if same_text(a, "--no-power") {
            power_gpio = -1;
            i += 1;
        } else if same_text(a, "--remote") {
            if !more {
                remote = None;
                i = args.len();
            } else {
                remote = Some(args[i + 1].clone());
                i += 2;
            }
        } else if same_text(a, "--dongle") {
            remote = Some("livi-link.local:5000".to_owned());
            i += 1;
        } else {
            let mut why = "unknown argument: ".to_owned();
            why.append(a);
            return Err(why);
        }
    }
    match remote {
        Some(addr) => {
            if find_char(addr.as_str(), ':').is_some() {
                Ok(Mode::Remote { addr })
            } else {
                let mut full = addr.clone();
                full.append(":5000");
                Ok(Mode::Remote { addr: full })
            }
        },
        None => Ok(Mode::Local { bus, power_gpio }),
    }
}

/// The challenge a probe has signed: as long as the generation wants it.
pub fn probe_challenge(major: u8) -> (c: Vec<u8>)
    ensures
        c@.len() == (if major >= 3 { 32int } else { 20int }),
        forall|i: int| 0 <= i < c@.len() ==> c@[i] == 0xAB,
{
    let n: usize = if major >= 3 { 32 } else { 20 };
    let mut c: Vec<u8> = Vec::new();
    while c.len() < n
        invariant
            c@.len() <= n,
            forall|i: int| 0 <= i < c@.len() ==> c@[i] == 0xAB,
        decreases n - c@.len(),
    {
        c.push(0xAB);
    }
    c
}

/// What a client gets: a zero, the length in two bytes, most significant first, and the data as the
/// coprocessor gave it, or a one and no data where it failed. A generation is one byte of data.
pub proof fn what_a_client_gets(outcome: Result<Vec<u8>, MfiError>, major: Option<u8>)
    ensures
        match outcome {
            Ok(data) => data@.len() <= 0xffff ==> {
                let m = reply_for(outcome);
                m.len() == 3 + data@.len() && m[0] == 0 && 256 * m[1] + m[2] == data@.len() && m.skip(3) == data@
            },
            Err(_) => reply_for(outcome) == seq![1u8, 0u8, 0u8],
        },
        match major {
            Some(m) => reply_of(major) == seq![0u8, 0u8, 1u8, m],
            None => reply_of(major) == seq![1u8, 0u8, 0u8],
        },
{
    match outcome {
        Ok(data) => if data@.len() <= 0xffff {
            assert(reply_for(outcome).skip(3) =~= data@);
        },
        Err(_) => {
            assert(reply_for(outcome) =~= seq![1u8, 0u8, 0u8]);
        },
    }
    match major {
        Some(m) => {
            assert(reply_of(major) =~= seq![0u8, 0u8, 1u8, m]);
        },
        None => {
            assert(reply_of(major) =~= seq![1u8, 0u8, 0u8]);
        },
    }
}

/// The register decides where it says two or three, whatever the certificate. Else a certificate of 768
/// bytes or more means two, a shorter one three, and without one nothing is known.
pub proof fn how_the_generation_is_told(register: Result<u8, MfiError>, certificate: Option<int>)
    ensures
        register matches Ok(m) && 2 <= m <= 3 ==> generation_of(register, certificate) == Some(register->Ok_0),
        !(register matches Ok(m) && 2 <= m <= 3) ==> generation_of(register, certificate) == (match certificate {
            Some(n) => if n >= 768 { Some(2u8) } else { Some(3u8) },
            None => None,
        }),
{
}

/// Each argument of a probe says one thing, and what follows is read the same way: a later one counts
/// over an earlier one, a number that cannot be read changes nothing, and an unknown one is named.
pub proof fn what_a_probe_argument_says(front: Seq<Seq<char>>, a: Seq<char>, b: Seq<char>, more: Seq<Seq<char>>, p: ProbeArgs)
    ensures
        ({
            let i = front.len() as int;
            let two = front + seq![a, b] + more;
            let one = front + seq![a] + more;
            let bare = front + seq![a];
            &&& a == "--bus"@ ==> probe_args(two, i, p) == probe_args(two, i + 2, match unsigned(b, 10, 0xffff_ffff) {
                Some(n) => ProbeArgs { bus: n as u32, ..p },
                None => p,
            }) && probe_args(bare, i, p) == Ok::<ProbeArgs, Seq<char>>(p)
            &&& a == "--power-gpio"@ ==> probe_args(two, i, p) == probe_args(two, i + 2, match signed32(b) {
                Some(n) => ProbeArgs { power_gpio: n as i32, ..p },
                None => p,
            }) && probe_args(bare, i, p) == Ok::<ProbeArgs, Seq<char>>(p)
            &&& a == "--no-power"@ ==> probe_args(one, i, p) == probe_args(one, i + 1, ProbeArgs { power_gpio: -1i32, ..p })
            &&& a == "--remote"@ ==> probe_args(two, i, p) == probe_args(two, i + 2, ProbeArgs { remote: Some(b), ..p })
            &&& a == "--dongle"@ ==> probe_args(one, i, p)
                == probe_args(one, i + 1, ProbeArgs { remote: Some("livi-link.local:5000"@), ..p })
            &&& a != "--bus"@ && a != "--power-gpio"@ && a != "--no-power"@ && a != "--remote"@ && a != "--dongle"@
                ==> probe_args(one, i, p) == Err::<ProbeArgs, Seq<char>>("unknown argument: "@ + a)
            &&& probe_args(front, i, p) == Ok::<ProbeArgs, Seq<char>>(p)
        }),
{
    reveal_strlit("--bus");
    reveal_strlit("--power-gpio");
    reveal_strlit("--no-power");
    reveal_strlit("--remote");
    reveal_strlit("--dongle");
    let i = front.len() as int;
    let two = front + seq![a, b] + more;
    let one = front + seq![a] + more;
    let bare = front + seq![a];
    assert(two[i] == a && two[i + 1] == b && one[i] == a && bare[i] == a);
    assert("--bus"@.len() == 5 && "--power-gpio"@.len() == 12 && "--no-power"@.len() == 10);
    assert("--remote"@.len() == 8 && "--dongle"@.len() == 8 && "--remote"@[2] == 'r' && "--dongle"@[2] == 'd');
}

/// An address that names a port is dialled as it is, any other at the port of the bridge.
pub proof fn the_usual_port_is_added_once(addr: Seq<char>)
    ensures
        addr.contains(':') ==> with_port(addr) == addr,
        !addr.contains(':') ==> with_port(addr) == addr + ":5000"@,
        with_port(with_port(addr)) == with_port(addr),
{
    crate::text::first_bounds(addr, ':');
    if addr.contains(':') {
        let k = choose|k: int| 0 <= k < addr.len() && addr[k] == ':';
        assert(addr[k] == ':');
    } else {
        if first(addr, ':') < addr.len() {
            assert(addr.contains(addr[first(addr, ':') as int]));
        }
        reveal_strlit(":5000");
        let t = addr + ":5000"@;
        assert forall|j: int| 0 <= j < addr.len() implies t[j] != ':' by {
            assert(addr.contains(addr[j]));
        }
        crate::text::first_at(t, ':', addr.len() as int);
    }
}

/// What a client asks is read off the front of what it sent, and no more than that: a challenge behind its
/// length, one byte for the other requests. A challenge that is not all there yet is waited for, and one of
/// a length that is not taken is refused once its length is there.
pub proof fn a_request_is_read_off_the_front(input: &[u8], n: u16, challenge: Seq<u8>, more: Seq<u8>, r: (Ask, usize))
    requires
        call_ensures(next_request, (input,), r),
    ensures
        input@ == seq![1u8] + more ==> r == (Ask::Certificate, 1usize),
        input@ == seq![3u8] + more ==> r == (Ask::Generation, 1usize),
        input@ == seq![2u8] + be16(n) + challenge + more && challenge.len() == n && 1 <= n <= 128
            ==> (r.0 matches Ask::Sign(c) && c@ == challenge) && r.1 == 3 + n,
        input@ == seq![2u8] + be16(n) + challenge && challenge.len() < n && 1 <= n <= 128 ==> r == (Ask::More, 0usize),
        input@ == seq![2u8] + be16(n) + more && (n == 0 || n > 128) ==> r == (Ask::Refuse, 3usize),
        input@.len() == 0 ==> r == (Ask::More, 0usize),
        input@.len() > 0 && (input@[0] == 0 || input@[0] > 3) ==> r == (Ask::Close, 1usize),
{
    let b = input@;
    if b == seq![2u8] + be16(n) + challenge + more {
        assert(b.subrange(1, 3) =~= be16(n));
        crate::bytes::integers_read_back(b, 1, n, 0);
        if challenge.len() == n {
            assert(b.subrange(3, 3 + n as int) =~= challenge);
        }
    }
    if b == seq![2u8] + be16(n) + challenge {
        assert(b.subrange(1, 3) =~= be16(n));
        crate::bytes::integers_read_back(b, 1, n, 0);
    }
    if b == seq![2u8] + be16(n) + more {
        assert(b.subrange(1, 3) =~= be16(n));
        crate::bytes::integers_read_back(b, 1, n, 0);
    }
}

/// A challenge is signed by three writes: its length to register 0x20, itself to 0x21 and the start to 0x10.
/// Any that is empty or longer than 128 bytes is refused with its length.
pub proof fn how_a_challenge_is_signed(challenge: &[u8], r: Result<Vec<(u8, Vec<u8>)>, MfiError>)
    requires
        call_ensures(challenge_plan, (challenge,), r),
    ensures
        r is Ok <==> 1 <= challenge@.len() <= 128,
        r matches Ok(plan) ==> plan@.len() == 3 && plan@[0].0 == 0x20 && plan@[0].1@ == seq![0u8, challenge@.len() as u8]
            && plan@[1].0 == 0x21 && plan@[1].1@ == challenge@ && plan@[2].0 == 0x10 && plan@[2].1@ == seq![1u8],
{
    match r {
        Ok(plan) => {
            let w = writes(plan@);
            assert(w.len() == 3);
            assert(w[0] == (plan@[0].0, plan@[0].1@) && w[1] == (plan@[1].0, plan@[1].1@) && w[2] == (plan@[2].0, plan@[2].1@));
            assert(be16(challenge@.len() as u16) =~= seq![0u8, challenge@.len() as u8]);
        },
        Err(_) => {},
    }
}

/// The bus is the one that is named, by its number or by its device, and the first one where none is.
pub proof fn a_named_bus_is_used(arg: &str, n: u32, bus: u32)
    requires
        call_ensures(bus_of, (Some(arg),), bus),
    ensures
        arg@ == dec(n as nat) ==> bus == n,
        arg@ == "/dev/i2c-"@ + dec(n as nat) ==> bus == n,
{
    let p = "/dev/i2c-"@;
    reveal_strlit("/dev/i2c-");
    let s = dec(n as nat);
    crate::text::a_number_reads_back(n as nat, 10);
    crate::text::a_number_is_made_of_digits(n as nat, 10, 0);
    crate::text::prefixes_are_taken_off(p, s);
    assert(!crate::text::starts_with(s, p)) by {
        if crate::text::starts_with(s, p) {
            assert(s.take(9)[0] == s[0]);
            assert(p[0] == '/');
        }
    }
}

} // verus!
