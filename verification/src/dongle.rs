//! The stock dongle's framing, how it is told from others on the bus, and the upload stream.

use vstd::prelude::*;
use std::collections::HashSet;

use crate::bytes::{append, copy_range, get_le32, integers_read_back, le32, put_le32, u32_le};
use crate::text::{dec, hex, put_dec, put_hex, same_text, zero_pad};

verus! {

pub const MAGIC: u32 = 0x55aa_55aa;
pub const HEADER_LEN: usize = 16;
/// A longer payload is a framing error, not a message.
pub const MAX_PAYLOAD: usize = 16777216;

pub const VENDOR: u16 = 0x1314;
pub const PRODUCTS: [u16; 2] = [0x1520, 0x1521];
pub const LINK_PRODUCT: &'static str = "LIVI Link";

/// The header: magic, payload length, message type and the type's complement.
pub open spec fn header_bytes(kind: u32, len: nat) -> Seq<u8> {
    le32(MAGIC) + le32((len % 0x1_0000_0000) as u32) + le32(kind) + le32((0xffff_ffff - kind) as u32)
}

/// A whole message.
pub open spec fn message_bytes(kind: u32, payload: Seq<u8>) -> Seq<u8> {
    header_bytes(kind, payload.len()) + payload
}

/// The header of a message.
pub fn header(kind: u32, len: usize) -> (h: [u8; 16])
    ensures
        h@ == header_bytes(kind, len as nat),
{
    let mut v: Vec<u8> = Vec::new();
    put_le32(&mut v, MAGIC);
    assert(v@ =~= le32(MAGIC));
    put_le32(&mut v, (len as u64 % 0x1_0000_0000) as u32);
    put_le32(&mut v, kind);
    put_le32(&mut v, 0xffff_ffff - kind);
    assert(v@.len() == 16);
    let h = [
        v[0], v[1], v[2], v[3], v[4], v[5], v[6], v[7],
        v[8], v[9], v[10], v[11], v[12], v[13], v[14], v[15],
    ];
    assert(h@ =~= v@);
    h
}

/// A whole message.
pub fn message(kind: u32, payload: &[u8]) -> (out: Vec<u8>)
    ensures
        out@ == message_bytes(kind, payload@),
{
    let mut out: Vec<u8> = Vec::new();
    append(&mut out, &header(kind, payload.len()));
    assert(out@ =~= header_bytes(kind, payload@.len()));
    append(&mut out, payload);
    out
}

/// The message type and payload length of a header, or what is wrong with it: a magic that is
/// not ours, a type that fails its check, a payload over the limit.
#[verifier::opaque]
pub open spec fn parsed(h: Seq<u8>) -> Result<(u32, usize), Seq<char>> {
    let (magic, len, kind, check) = (u32_le(h, 0), u32_le(h, 4), u32_le(h, 8), u32_le(h, 12));
    if magic != MAGIC {
        Err("bad magic 0x"@ + zero_pad(hex(magic as nat), 8))
    } else if check != 0xffff_ffff - kind {
        Err("type 0x"@ + zero_pad(hex(kind as nat), 1) + " fails its check 0x"@ + zero_pad(hex(check as nat), 1))
    } else if len > MAX_PAYLOAD {
        Err("payload of "@ + dec(len as nat) + " bytes"@)
    } else {
        Ok((kind, len as usize))
    }
}

/// Whether a result is what was expected of it.
pub open spec fn reads(r: Result<(u32, usize), String>, want: Result<(u32, usize), Seq<char>>) -> bool {
    match (r, want) {
        (Ok(a), Ok(b)) => a == b,
        (Err(a), Err(b)) => a@ == b,
        _ => false,
    }
}

/// The message type and payload length of a header.
pub fn parse_header(h: &[u8; 16]) -> (r: Result<(u32, usize), String>)
    ensures
        reads(r, parsed(h@)),
        r matches Ok((_, len)) ==> len <= MAX_PAYLOAD,
{
    proof {
        reveal(parsed);
    }
    let magic: u32 = get_le32(h, 0);
    if magic != MAGIC {
        let mut why = "bad magic 0x".to_owned();
        put_hex(&mut why, magic as u64, 8);
        return Err(why);
    }
    let len: u32 = get_le32(h, 4);
    let kind: u32 = get_le32(h, 8);
    let check: u32 = get_le32(h, 12);
    if check != 0xffff_ffff - kind {
        let mut why = "type 0x".to_owned();
        put_hex(&mut why, kind as u64, 1);
        why.append(" fails its check 0x");
        put_hex(&mut why, check as u64, 1);
        return Err(why);
    }
    if len as usize > MAX_PAYLOAD {
        let mut why = "payload of ".to_owned();
        put_dec(&mut why, len as u64);
        why.append(" bytes");
        return Err(why);
    }
    Ok((kind, len as usize))
}

/// A header that was written parses back to its type and length, up to the payload limit, and
/// is refused above it.
pub proof fn a_header_parses_back(kind: u32, len: nat)
    requires
        len <= 0xffff_ffff,
    ensures
        len <= MAX_PAYLOAD ==> parsed(header_bytes(kind, len))
            == Ok::<(u32, usize), Seq<char>>((kind, len as usize)),
        len > MAX_PAYLOAD ==> parsed(header_bytes(kind, len)) is Err,
{
    reveal(parsed);
    let h = header_bytes(kind, len);
    assert(len % 0x1_0000_0000 == len);
    assert(h.subrange(0, 4) =~= le32(MAGIC));
    assert(h.subrange(4, 8) =~= le32(len as u32));
    assert(h.subrange(8, 12) =~= le32(kind));
    assert(h.subrange(12, 16) =~= le32((0xffff_ffff - kind) as u32));
    integers_read_back(h, 0, 0, MAGIC);
    integers_read_back(h, 4, 0, len as u32);
    integers_read_back(h, 8, 0, kind);
    integers_read_back(h, 12, 0, (0xffff_ffff - kind) as u32);
}

/// What a run of bytes holds: whole messages, what is left behind them, and what is wrong with
/// the next header where it is wrong.
pub struct Split {
    pub messages: Seq<Seq<u8>>,
    pub rest: Seq<u8>,
    pub fault: Option<Seq<char>>,
}

/// Splits a run of bytes into whole messages.
pub open spec fn split(acc: Seq<u8>) -> Split
    decreases acc.len(),
{
    if acc.len() < HEADER_LEN {
        Split { messages: Seq::empty(), rest: acc, fault: None }
    } else {
        match parsed(acc.take(HEADER_LEN as int)) {
            Err(why) => Split { messages: Seq::empty(), rest: acc, fault: Some(why) },
            Ok((_, len)) => if acc.len() < HEADER_LEN + len {
                Split { messages: Seq::empty(), rest: acc, fault: None }
            } else {
                let tail = split(acc.skip(HEADER_LEN + len));
                Split {
                    messages: seq![acc.take(HEADER_LEN + len)] + tail.messages,
                    rest: tail.rest,
                    fault: tail.fault,
                }
            },
        }
    }
}

/// The bytes of each message in a list.
pub open spec fn views(list: Seq<Vec<u8>>) -> Seq<Seq<u8>> {
    Seq::new(list.len(), |i: int| list[i]@)
}

/// Reads the header at a place.
fn header_at(acc: &Vec<u8>, from: usize) -> (r: Result<(u32, usize), String>)
    requires
        from + HEADER_LEN <= acc.len(),
    ensures
        reads(r, parsed(acc@.skip(from as int).take(HEADER_LEN as int))),
        r matches Ok((_, len)) ==> len <= MAX_PAYLOAD,
{
    let h = [
        acc[from], acc[from + 1], acc[from + 2], acc[from + 3],
        acc[from + 4], acc[from + 5], acc[from + 6], acc[from + 7],
        acc[from + 8], acc[from + 9], acc[from + 10], acc[from + 11],
        acc[from + 12], acc[from + 13], acc[from + 14], acc[from + 15],
    ];
    assert(h@ =~= acc@.skip(from as int).take(HEADER_LEN as int));
    parse_header(&h)
}

/// Takes the whole messages off the front of what came in, so that each goes out as one
/// transfer. What is left waits for more. A header that is wrong ends the stream.
pub fn take_messages(acc: &mut Vec<u8>) -> (r: (Vec<Vec<u8>>, Option<String>))
    ensures
        views(r.0@) == split(old(acc)@).messages,
        final(acc)@ == split(old(acc)@).rest,
        match r.1 {
            Some(why) => split(old(acc)@).fault == Some(why@),
            None => split(old(acc)@).fault is None,
        },
{
    let ghost start = acc@;
    let mut out: Vec<Vec<u8>> = Vec::new();
    let mut from: usize = 0;
    let ghost whole = split(start);
    assert(start.skip(0) =~= start);
    assert(views(out@) + whole.messages =~= whole.messages);
    loop
        invariant
            from <= acc@.len(),
            acc@ == start,
            start == old(acc)@,
            whole == split(start),
            whole.messages == views(out@) + split(start.skip(from as int)).messages,
            whole.rest == split(start.skip(from as int)).rest,
            whole.fault == split(start.skip(from as int)).fault,
        decreases acc@.len() - from,
    {
        let ghost here = start.skip(from as int);
        proof {
            if split(here).messages.len() == 0 {
                assert(views(out@) + split(here).messages =~= views(out@));
            }
        }
        if acc.len() - from < HEADER_LEN {
            let rest = copy_range(acc, from, acc.len());
            assert(rest@ =~= here);
            *acc = rest;
            return (out, None);
        }
        match header_at(acc, from) {
            Err(why) => {
                let rest = copy_range(acc, from, acc.len());
                assert(rest@ =~= here);
                *acc = rest;
                return (out, Some(why));
            },
            Ok((_, len)) => {
                if acc.len() - from < HEADER_LEN + len {
                    let rest = copy_range(acc, from, acc.len());
                    assert(rest@ =~= here);
                    *acc = rest;
                    return (out, None);
                }
                let ghost before = views(out@);
                let msg = copy_range(acc, from, from + HEADER_LEN + len);
                assert(msg@ =~= here.take(HEADER_LEN + len));
                out.push(msg);
                assert(views(out@) =~= before.push(here.take(HEADER_LEN + len)));
                assert(here.skip(HEADER_LEN + len) =~= start.skip(from + HEADER_LEN + len));
                proof {
                    let tail = split(here.skip(HEADER_LEN + len)).messages;
                    assert(before + (seq![here.take(HEADER_LEN + len)] + tail) =~= views(out@) + tail);
                }
                from = from + HEADER_LEN + len;
            },
        }
    }
}

/// A message in front of anything else is split off whole.
pub proof fn a_message_is_split_off(kind: u32, payload: Seq<u8>, more: Seq<u8>)
    requires
        payload.len() <= MAX_PAYLOAD,
    ensures
        split(message_bytes(kind, payload) + more).messages
            == seq![message_bytes(kind, payload)] + split(more).messages,
        split(message_bytes(kind, payload) + more).rest == split(more).rest,
        split(message_bytes(kind, payload) + more).fault == split(more).fault,
{
    let m = message_bytes(kind, payload);
    let acc = m + more;
    a_header_parses_back(kind, payload.len());
    assert(acc.take(HEADER_LEN as int) =~= header_bytes(kind, payload.len()));
    assert(acc.take((HEADER_LEN + payload.len()) as int) =~= m);
    assert(acc.skip((HEADER_LEN + payload.len()) as int) =~= more);
}

/// It makes no difference in how many pieces the bytes come in.
pub proof fn pieces_make_no_difference(a: Seq<u8>, b: Seq<u8>)
    ensures
        split(a).fault is None ==> {
            &&& split(a + b).messages == split(a).messages + split(split(a).rest + b).messages
            &&& split(a + b).rest == split(split(a).rest + b).rest
            &&& split(a + b).fault == split(split(a).rest + b).fault
        },
    decreases a.len(),
{
    let empty = Seq::<Seq<u8>>::empty();
    if a.len() < HEADER_LEN {
        assert(split(a).messages + split(a + b).messages =~= split(a + b).messages);
    } else {
        assert((a + b).take(HEADER_LEN as int) =~= a.take(HEADER_LEN as int));
        match parsed(a.take(HEADER_LEN as int)) {
            Err(_) => {},
            Ok((_, len)) => {
                let n = HEADER_LEN + len;
                if a.len() < n {
                    assert(split(a).messages + split(a + b).messages =~= split(a + b).messages);
                } else {
                    pieces_make_no_difference(a.skip(n), b);
                    assert((a + b).take(n) =~= a.take(n));
                    assert((a + b).skip(n) =~= a.skip(n) + b);
                    let rest = split(split(a).rest + b).messages;
                    assert(seq![a.take(n)] + (split(a.skip(n)).messages + rest)
                        =~= (seq![a.take(n)] + split(a.skip(n)).messages) + rest);
                }
            },
        }
    }
}

/// What the main process hears about a session, besides the socket path.
pub struct Announce {
    pub serial: String,
    pub product: u16,
    pub version: u16,
    pub name: String,
}

/// How a session is named in the log.
pub open spec fn session_label(serial: Seq<char>) -> Seq<char> {
    if serial.len() == 0 { "dongle"@ } else { "dongle:"@ + serial }
}

impl Announce {
    /// How the session is named in the log.
    pub fn label(&self) -> (out: String)
        ensures
            out@ == session_label(self.serial@),
    {
        if self.serial.as_str().is_empty() {
            "dongle".to_owned()
        } else {
            let mut out = "dongle:".to_owned();
            out.append(self.serial.as_str());
            out
        }
    }
}

/// Whether a device is the LIVI Link, by its product string.
pub fn is_livi_link(product: Option<&str>) -> (r: bool)
    ensures
        r == (product matches Some(p) && p@ == LINK_PRODUCT@),
{
    match product {
        Some(p) => same_text(p, LINK_PRODUCT),
        None => false,
    }
}

/// Whether a device is a stock dongle, by vendor and product.
pub fn is_dongle(vendor: u16, product: u16) -> (r: bool)
    ensures
        r == (vendor == VENDOR && PRODUCTS@.contains(product)),
{
    if vendor != VENDOR {
        return false;
    }
    assert(PRODUCTS@[0] == 0x1520 && PRODUCTS@[1] == 0x1521);
    product == 0x1520 || product == 0x1521
}

/// The dongles on the bus, by device number.
pub struct Dongles {
    pub present: HashSet<u64>,
    pub busy: HashSet<u64>,
    /// The LIVI Link dongle, while it is on the bus.
    pub link: Option<u64>,
}

/// What to do about a device that showed up.
#[derive(PartialEq, Eq, Structural, Clone, Copy)]
pub enum Seen {
    Nothing,
    /// The LIVI Link is on the bus.
    Link,
    /// A stock dongle is to be served.
    Serve,
}

impl Dongles {
    /// Nothing on the bus.
    pub fn new() -> (r: Self)
        ensures
            r.present@ == Set::<u64>::empty(),
            r.busy@ == Set::<u64>::empty(),
            r.link is None,
    {
        Dongles { present: HashSet::new(), busy: HashSet::new(), link: None }
    }

    /// A device showed up. The first LIVI Link is announced, a stock dongle is served unless it
    /// already is.
    pub fn seen(&mut self, id: u64, livi_link: bool, dongle: bool) -> (r: Seen)
        ensures
            r == (if livi_link {
                if old(self).link is Some { Seen::Nothing } else { Seen::Link }
            } else if dongle && !old(self).busy@.contains(id) {
                Seen::Serve
            } else {
                Seen::Nothing
            }),
            final(self).link == (if livi_link && old(self).link is None { Some(id) } else { old(self).link }),
            final(self).present@ == (if !livi_link && dongle { old(self).present@.insert(id) } else { old(self).present@ }),
            final(self).busy@ == (if !livi_link && dongle { old(self).busy@.insert(id) } else { old(self).busy@ }),
    {
        broadcast use vstd::std_specs::hash::group_hash_axioms;
        if livi_link {
            if self.link.is_some() {
                return Seen::Nothing;
            }
            self.link = Some(id);
            return Seen::Link;
        }
        if !dongle {
            return Seen::Nothing;
        }
        self.present.insert(id);
        let was = self.busy.contains(&id);
        self.busy.insert(id);
        if was { Seen::Nothing } else { Seen::Serve }
    }

    /// A device left the bus. Says whether it was the LIVI Link.
    pub fn gone(&mut self, id: u64) -> (link_gone: bool)
        ensures
            link_gone == (old(self).link == Some(id)),
            final(self).link == (if link_gone { None } else { old(self).link }),
            final(self).present@ == old(self).present@.remove(id),
            final(self).busy@ == old(self).busy@,
    {
        broadcast use vstd::std_specs::hash::group_hash_axioms;
        self.present.remove(&id);
        match self.link {
            Some(l) => if l == id {
                self.link = None;
                true
            } else {
                false
            },
            None => false,
        }
    }

    /// A device is no longer served.
    pub fn served(&mut self, id: u64)
        ensures
            final(self).busy@ == old(self).busy@.remove(id),
            final(self).present@ == old(self).present@,
            final(self).link == old(self).link,
    {
        broadcast use vstd::std_specs::hash::group_hash_axioms;
        self.busy.remove(&id);
    }

    /// Whether another session is offered: only while the device is still there.
    pub fn offer_again(&self, id: u64) -> (r: bool)
        ensures
            r == self.present@.contains(id),
    {
        broadcast use vstd::std_specs::hash::group_hash_axioms;
        self.present.contains(&id)
    }
}

/// A header holds the magic, the length, the type and what the type lacks to all ones, four bytes each,
/// least significant first, and the payload follows it.
pub proof fn a_message_is_laid_out(kind: u32, payload: Seq<u8>)
    requires
        payload.len() <= 0xffff_ffff,
    ensures
        ({
            let m = message_bytes(kind, payload);
            &&& m.len() == 16 + payload.len()
            &&& m.subrange(0, 4) == seq![0xaau8, 0x55u8, 0xaau8, 0x55u8]
            &&& u32_le(m, 4) == payload.len()
            &&& u32_le(m, 8) == kind
            &&& u32_le(m, 12) + kind == 0xffff_ffff
            &&& m.skip(16) == payload
            &&& m.take(16) == header_bytes(kind, payload.len())
        }),
{
    let m = message_bytes(kind, payload);
    let h = header_bytes(kind, payload.len());
    header_fields(kind, payload.len());
    assert(m.take(16) =~= h);
    assert(m.skip(16) =~= payload);
    assert(m.subrange(0, 4) =~= h.subrange(0, 4));
    assert(m.subrange(4, 8) =~= h.subrange(4, 8));
    assert(m.subrange(8, 12) =~= h.subrange(8, 12));
    assert(m.subrange(12, 16) =~= h.subrange(12, 16));
    integers_read_back(m, 4, 0, payload.len() as u32);
    integers_read_back(m, 8, 0, kind);
    integers_read_back(m, 12, 0, (0xffff_ffff - kind) as u32);
}

proof fn header_fields(kind: u32, len: nat)
    requires
        len <= 0xffff_ffff,
    ensures
        ({
            let h = header_bytes(kind, len);
            &&& h.len() == 16
            &&& h.subrange(0, 4) == seq![0xaau8, 0x55u8, 0xaau8, 0x55u8]
            &&& h.subrange(4, 8) == le32(len as u32)
            &&& h.subrange(8, 12) == le32(kind)
            &&& h.subrange(12, 16) == le32((0xffff_ffff - kind) as u32)
        }),
{
    let (a, b, c, d) = (le32(MAGIC), le32(len as u32), le32(kind), le32((0xffff_ffff - kind) as u32));
    assert(a =~= seq![0xaau8, 0x55u8, 0xaau8, 0x55u8]);
    let h = a + b + c + d;
    assert(h == header_bytes(kind, len));
    assert(h.subrange(0, 4) =~= a);
    assert(h.subrange(4, 8) =~= b);
    assert(h.subrange(8, 12) =~= c);
    assert(h.subrange(12, 16) =~= d);
}

/// A header is read exactly where it begins with the magic, its type matches its check and its length
/// is within sixteen megabytes, and it says the type and the length that stand there.
pub proof fn a_sound_header_is_read(h: Seq<u8>)
    requires
        h.len() == 16,
    ensures
        parsed(h) is Ok <==> h.subrange(0, 4) == seq![0xaau8, 0x55u8, 0xaau8, 0x55u8]
            && u32_le(h, 8) + u32_le(h, 12) == 0xffff_ffff && u32_le(h, 4) <= 16 * 1024 * 1024,
        parsed(h) matches Ok((kind, len)) ==> kind == u32_le(h, 8) && len == u32_le(h, 4),
{
    reveal(parsed);
    let m = seq![0xaau8, 0x55u8, 0xaau8, 0x55u8];
    if h.subrange(0, 4) == m {
        assert(h[0] == m[0] && h[1] == m[1] && h[2] == m[2] && h[3] == m[3]) by {
            assert(h.subrange(0, 4)[0] == h[0] && h.subrange(0, 4)[1] == h[1] && h.subrange(0, 4)[2] == h[2]
                && h.subrange(0, 4)[3] == h[3]);
        }
    }
    if u32_le(h, 0) == 0x55aa_55aa {
        let (a, b, c, d) = (h[0] as int, h[1] as int, h[2] as int, h[3] as int);
        assert(a + b * 0x100 + c * 0x1_0000 + d * 0x100_0000 == 0x55aa_55aa);
        assert(a == 0xaa && b == 0x55 && c == 0xaa && d == 0x55);
        assert(h.subrange(0, 4) =~= m);
    }
}

/// Splitting loses nothing: the messages and what is left behind them are what came in.
pub proof fn splitting_loses_nothing(acc: Seq<u8>)
    ensures
        split(acc).messages.flatten() + split(acc).rest == acc,
    decreases acc.len(),
{
    let s = split(acc);
    if acc.len() >= HEADER_LEN {
        match parsed(acc.take(HEADER_LEN as int)) {
            Ok((_, len)) => if acc.len() >= HEADER_LEN + len {
                let cut = HEADER_LEN + len;
                let tail = split(acc.skip(cut));
                splitting_loses_nothing(acc.skip(cut));
                assert(s.messages == seq![acc.take(cut)] + tail.messages);
                assert(s.messages.drop_first() =~= tail.messages);
                assert(s.messages.flatten() == acc.take(cut) + tail.messages.flatten());
                assert(s.messages.flatten() + s.rest =~= acc.take(cut) + (tail.messages.flatten() + tail.rest));
                assert(acc.take(cut) + acc.skip(cut) =~= acc);
            } else {
                assert(s.messages.flatten() + s.rest =~= acc);
            },
            Err(_) => {
                assert(s.messages.flatten() + s.rest =~= acc);
            },
        }
    } else {
        assert(s.messages.flatten() + s.rest =~= acc);
    }
}

/// What a header says is what it was written with, and a payload over the limit is refused.
pub proof fn a_written_header_is_read(kind: u32, len: usize, h: [u8; 16], r: Result<(u32, usize), String>)
    requires
        call_ensures(header, (kind, len), h),
        call_ensures(parse_header, (&h,), r),
        len <= 0xffff_ffff,
    ensures
        len <= 16777216 ==> r == Ok::<(u32, usize), String>((kind, len)),
        len > 16777216 ==> r is Err,
{
    a_header_parses_back(kind, len as nat);
}

/// A stock dongle is served once: from when it shows up until its session is over it is busy, and it is
/// offered another session only while it is still there.
pub proof fn a_dongle_is_served_once(before: Dongles, id: u64, other: u64)
    requires
        other != id,
    ensures
        forall|d: &mut Dongles, r: Seen| #[trigger] call_ensures(Dongles::seen, (d, id, false, true), r) && *d == before ==> {
            let after = *final(d);
            &&& r == (if before.busy@.contains(id) { Seen::Nothing } else { Seen::Serve })
            &&& after.busy@.contains(id) && after.present@.contains(id)
            &&& after.busy@.contains(other) == before.busy@.contains(other)
            &&& after.present@.contains(other) == before.present@.contains(other)
            &&& after.link == before.link
        },
        forall|d: &mut Dongles, r: bool| #[trigger] call_ensures(Dongles::gone, (d, id), r) && *d == before ==> {
            let after = *final(d);
            &&& !after.present@.contains(id) && after.busy@.contains(id) == before.busy@.contains(id)
            &&& after.present@.contains(other) == before.present@.contains(other)
            &&& r <==> before.link == Some(id)
            &&& r ==> after.link is None
            &&& !r ==> after.link == before.link
        },
        forall|d: &mut Dongles, r: ()| #[trigger] call_ensures(Dongles::served, (d, id), r) && *d == before ==> {
            let after = *final(d);
            &&& !after.busy@.contains(id) && after.present@.contains(id) == before.present@.contains(id)
            &&& after.busy@.contains(other) == before.busy@.contains(other)
            &&& after.link == before.link
        },
        forall|d: &mut Dongles, r: Seen| #[trigger] call_ensures(Dongles::seen, (d, id, true, true), r) && *d == before ==> {
            let after = *final(d);
            &&& r == (if before.link is Some { Seen::Nothing } else { Seen::Link })
            &&& after.link == (if before.link is Some { before.link } else { Some(id) })
            &&& after.busy@ == before.busy@ && after.present@ == before.present@
        },
{
}

} // verus!
