//! The service records a phone browses for, and the answers on the SDP channel.

use vstd::prelude::*;
use vstd::string::StringSliceAdditionalSpecFns;
use vstd::utf8::{encode_utf8, is_ascii_chars_encode_utf8};

use crate::bytes::{append, be16, be32, get_be16, get_be32, put_be16, put_be32, same, u16_be, u32_be};
use crate::text::{hex_of, hex_text};

verus! {

/// The channel every SDP client connects to.
pub const PSM: u16 = 1;
pub const PDU_MAX: usize = 1024;

/// Wireless iAP.
pub const IAP_UUID: [u8; 16] = [
    0x00, 0x00, 0x00, 0x00, 0xde, 0xca, 0xfa, 0xde, 0xde, 0xca, 0xde, 0xaf, 0xde, 0xca, 0xca, 0xff,
];
/// Wireless iAP the other way round, offered by the phone.
pub const IAP_CLIENT_UUID: [u8; 16] = [
    0x00, 0x00, 0x00, 0x00, 0xde, 0xca, 0xfa, 0xde, 0xde, 0xca, 0xde, 0xaf, 0xde, 0xca, 0xca, 0xfe,
];
/// CarPlay.
pub const CARPLAY_UUID: [u8; 16] = [
    0xec, 0x88, 0x43, 0x48, 0xcd, 0x41, 0x40, 0xa2, 0x97, 0x27, 0x57, 0x5d, 0x50, 0xbf, 0x1f, 0xd3,
];

pub const IAP_NAME: &'static str = "Wireless iAP";
pub const CARPLAY_NAME: &'static str = "CarPlay";

pub const UUID_L2CAP: u16 = 0x0100;
pub const UUID_RFCOMM: u16 = 0x0003;
pub const UUID_BROWSE_ROOT: u16 = 0x1002;
pub const UUID_SERIAL_PORT: u16 = 0x1101;

pub const REQ_SERVICE_SEARCH: u8 = 0x02;
pub const REQ_ATTRIBUTE: u8 = 0x04;
pub const REQ_SEARCH_ATTRIBUTE: u8 = 0x06;
pub const RSP_SERVICE_SEARCH: u8 = 0x03;
pub const RSP_ATTRIBUTE: u8 = 0x05;
pub const RSP_SEARCH_ATTRIBUTE: u8 = 0x07;
pub const RSP_ERROR: u8 = 0x01;
pub const ERROR_SYNTAX: u16 = 0x0003;

/// One service the phone can open, and where.
pub struct Record {
    pub handle: u32,
    pub uuid: [u8; 16],
    pub channel: u8,
    pub name: &'static str,
}

/// What a record says.
pub struct Service {
    pub handle: u32,
    pub uuid: Seq<u8>,
    pub channel: u8,
    pub name: Seq<char>,
}

impl View for Record {
    type V = Service;

    open spec fn view(&self) -> Service {
        Service { handle: self.handle, uuid: self.uuid@, channel: self.channel, name: self.name@ }
    }
}

/// Everything this controller offers.
pub open spec fn services() -> Seq<Service> {
    seq![
        Service { handle: 0x0001_0001, uuid: IAP_UUID@, channel: 3, name: IAP_NAME@ },
        Service { handle: 0x0001_0002, uuid: CARPLAY_UUID@, channel: 4, name: CARPLAY_NAME@ },
    ]
}

/// Everything this controller offers.
pub fn records() -> (r: [Record; 2])
    ensures
        r@.len() == 2,
        r@[0]@ == services()[0],
        r@[1]@ == services()[1],
{
    [
        Record { handle: 0x0001_0001, uuid: IAP_UUID, channel: 3, name: IAP_NAME },
        Record { handle: 0x0001_0002, uuid: CARPLAY_UUID, channel: 4, name: CARPLAY_NAME },
    ]
}

/// Where the payload of the element at the front starts and ends. The low bits of its head say
/// how long it is, or in how many bytes its length follows; a nil element carries no payload.
pub open spec fn shape(body: Seq<u8>) -> Option<(int, int)> {
    if body.len() == 0 {
        None
    } else {
        let index = body[0] as int % 8;
        let from: int = if index < 5 { 1 } else if index == 5 { 2 } else if index == 6 { 3 } else { 5 };
        if body.len() < from {
            None
        } else {
            let len: int = if body[0] < 8 { 0 }
                else if index == 0 { 1 } else if index == 1 { 2 } else if index == 2 { 4 }
                else if index == 3 { 8 } else if index == 4 { 16 }
                else if index == 5 { body[1] as int }
                else if index == 6 { u16_be(body, 1) as int }
                else { u32_be(body, 1) as int };
            if from + len > body.len() { None } else { Some((from, from + len)) }
        }
    }
}

/// The payloads of the elements a run of bytes holds, up to the first that cannot be read.
pub open spec fn elements(body: Seq<u8>) -> Seq<Seq<u8>>
    decreases body.len(),
{
    match shape(body) {
        Some((from, end)) => if 0 < from <= end <= body.len() {
            seq![body.subrange(from, end)] + elements(body.skip(end))
        } else {
            Seq::empty()
        },
        None => Seq::empty(),
    }
}

/// The payload of the next data element, and the rest.
pub fn element(body: &[u8]) -> (r: Option<(&[u8], &[u8])>)
    ensures
        match r {
            Some((value, rest)) => shape(body@) matches Some((from, end)) && 0 < from <= end <= body@.len()
                && value@ == body@.subrange(from, end) && rest@ == body@.skip(end),
            None => shape(body@) is None,
        },
{
    if body.len() == 0 {
        return None;
    }
    let head: u8 = body[0];
    let index: u8 = head % 8;
    let from: usize = if index < 5 { 1 } else if index == 5 { 2 } else if index == 6 { 3 } else { 5 };
    if body.len() < from {
        return None;
    }
    let len: usize = if head < 8 { 0 }
        else if index == 0 { 1 } else if index == 1 { 2 } else if index == 2 { 4 }
        else if index == 3 { 8 } else if index == 4 { 16 }
        else if index == 5 { body[1] as usize }
        else if index == 6 { get_be16(body, 1) as usize }
        else { get_be32(body, 1) as usize };
    if len > body.len() - from {
        return None;
    }
    let end: usize = from + len;
    let rest = vstd::slice::slice_subrange(body, end, body.len());
    assert(rest@ =~= body@.skip(end as int));
    Some((vstd::slice::slice_subrange(body, from, end), rest))
}

/// Whether one payload of a search pattern asks for a service: the browse root and the protocols
/// ask for every one, a long identifier for its own.
pub open spec fn hits(value: Seq<u8>, uuid: Seq<u8>) -> bool {
    if value.len() == 2 {
        let id = u16_be(value, 0);
        id == UUID_BROWSE_ROOT || id == UUID_L2CAP || id == UUID_RFCOMM
    } else {
        value.len() == 16 && value == uuid
    }
}

/// Whether a search pattern asks for a service.
pub open spec fn is_wanted(pattern: Seq<u8>, uuid: Seq<u8>) -> bool {
    exists|i: int| 0 <= i < elements(pattern).len() && hits(#[trigger] elements(pattern)[i], uuid)
}

/// Whether one payload of an attribute list names an id, alone or inside a range.
pub open spec fn names(value: Seq<u8>, id: u16) -> bool {
    if value.len() == 2 {
        u16_be(value, 0) == id
    } else {
        value.len() == 4 && u16_be(value, 0) <= id <= u16_be(value, 2)
    }
}

/// Whether an attribute list asks for an id.
pub open spec fn is_asked(attrs: Seq<u8>, id: u16) -> bool {
    exists|i: int| 0 <= i < elements(attrs).len() && names(#[trigger] elements(attrs)[i], id)
}

proof fn elements_from(body: Seq<u8>, rest: Seq<u8>)
    requires
        shape(body) matches Some((from, end)) && 0 < from <= end <= body.len() && rest == body.skip(end),
    ensures
        elements(body).len() == elements(rest).len() + 1,
        shape(body) matches Some((from, end)) && elements(body)[0] == body.subrange(from, end),
        forall|i: int| 0 <= i < elements(rest).len() ==> #[trigger] elements(rest)[i] == elements(body)[i + 1],
        forall|i: int| 1 <= i < elements(body).len() ==> #[trigger] elements(body)[i] == elements(rest)[i - 1],
{
}

/// Whether the search pattern asks for this record.
pub fn wanted(pattern: &[u8], record: &Record) -> (r: bool)
    ensures
        r == is_wanted(pattern@, record@.uuid),
{
    let mut rest = pattern;
    loop
        invariant
            is_wanted(pattern@, record@.uuid) == is_wanted(rest@, record@.uuid),
        decreases rest@.len(),
    {
        match element(rest) {
            Some((value, next)) => {
                proof {
                    elements_from(rest@, next@);
                }
                let hit = if value.len() == 2 {
                    let id: u16 = get_be16(value, 0);
                    id == UUID_BROWSE_ROOT || id == UUID_L2CAP || id == UUID_RFCOMM
                } else {
                    value.len() == 16 && same(value, &record.uuid)
                };
                if hit {
                    assert(hits(elements(rest@)[0], record@.uuid));
                    return true;
                }
                proof {
                    skip_miss_wanted(rest@, next@, record@.uuid);
                }
                rest = next;
            },
            None => {
                return false;
            },
        }
    }
}

proof fn skip_miss_wanted(body: Seq<u8>, rest: Seq<u8>, uuid: Seq<u8>)
    requires
        shape(body) matches Some((from, end)) && 0 < from <= end <= body.len() && rest == body.skip(end),
        !hits(elements(body)[0], uuid),
    ensures
        is_wanted(body, uuid) == is_wanted(rest, uuid),
{
    elements_from(body, rest);
    if is_wanted(body, uuid) {
        let i = choose|i: int| 0 <= i < elements(body).len() && hits(#[trigger] elements(body)[i], uuid);
        assert(elements(rest)[i - 1] == elements(body)[i]);
    }
    if is_wanted(rest, uuid) {
        let i = choose|i: int| 0 <= i < elements(rest).len() && hits(#[trigger] elements(rest)[i], uuid);
        assert(elements(body)[i + 1] == elements(rest)[i]);
    }
}

proof fn skip_miss_asked(body: Seq<u8>, rest: Seq<u8>, id: u16)
    requires
        shape(body) matches Some((from, end)) && 0 < from <= end <= body.len() && rest == body.skip(end),
        !names(elements(body)[0], id),
    ensures
        is_asked(body, id) == is_asked(rest, id),
{
    elements_from(body, rest);
    if is_asked(body, id) {
        let i = choose|i: int| 0 <= i < elements(body).len() && names(#[trigger] elements(body)[i], id);
        assert(elements(rest)[i - 1] == elements(body)[i]);
    }
    if is_asked(rest, id) {
        let i = choose|i: int| 0 <= i < elements(rest).len() && names(#[trigger] elements(rest)[i], id);
        assert(elements(body)[i + 1] == elements(rest)[i]);
    }
}

/// Whether an attribute id falls inside the requested list of ids and ranges.
pub fn asked(attrs: &[u8], id: u16) -> (r: bool)
    ensures
        r == is_asked(attrs@, id),
{
    let mut rest = attrs;
    loop
        invariant
            is_asked(attrs@, id) == is_asked(rest@, id),
        decreases rest@.len(),
    {
        match element(rest) {
            Some((value, next)) => {
                proof {
                    elements_from(rest@, next@);
                }
                let hit = if value.len() == 2 {
                    get_be16(value, 0) == id
                } else {
                    value.len() == 4 && get_be16(value, 0) <= id && id <= get_be16(value, 2)
                };
                if hit {
                    assert(names(elements(rest@)[0], id));
                    return true;
                }
                proof {
                    skip_miss_asked(rest@, next@, id);
                }
                rest = next;
            },
            None => {
                return false;
            },
        }
    }
}

/// A one byte number.
pub open spec fn uint8_bytes(v: u8) -> Seq<u8> {
    seq![0x08u8, v]
}

/// A two byte number.
pub open spec fn uint16_bytes(v: u16) -> Seq<u8> {
    seq![0x09u8] + be16(v)
}

/// A four byte number.
pub open spec fn uint32_bytes(v: u32) -> Seq<u8> {
    seq![0x0au8] + be32(v)
}

/// A short identifier.
pub open spec fn uuid16_bytes(v: u16) -> Seq<u8> {
    seq![0x19u8] + be16(v)
}

/// A long identifier.
pub open spec fn uuid128_bytes(v: Seq<u8>) -> Seq<u8> {
    seq![0x1cu8] + v
}

/// A text with its length in one byte.
pub open spec fn text_bytes(v: Seq<u8>) -> Seq<u8> {
    seq![0x25u8, (v.len() % 256) as u8] + v
}

/// A sequence of elements with its length in one byte.
pub open spec fn sequence_bytes(body: Seq<u8>) -> Seq<u8> {
    seq![0x35u8, (body.len() % 256) as u8] + body
}

/// A message: its kind, the transaction, the length of the parameters and the parameters.
pub open spec fn packet_bytes(pdu: u8, tid: u16, params: Seq<u8>) -> Seq<u8> {
    seq![pdu] + be16(tid) + be16((params.len() % 0x1_0000) as u16) + params
}

/// An error answer.
pub open spec fn error_bytes(tid: u16, code: u16) -> Seq<u8> {
    packet_bytes(RSP_ERROR, tid, be16(code))
}

/// A one byte number.
pub fn uint8(v: u8) -> (out: Vec<u8>)
    ensures
        out@ == uint8_bytes(v),
{
    let out = vec![0x08u8, v];
    assert(out@ =~= uint8_bytes(v));
    out
}

/// A two byte number.
pub fn uint16(v: u16) -> (out: Vec<u8>)
    ensures
        out@ == uint16_bytes(v),
{
    let mut out: Vec<u8> = Vec::new();
    out.push(0x09u8);
    assert(out@ =~= seq![0x09u8]);
    put_be16(&mut out, v);
    out
}

/// A four byte number.
pub fn uint32(v: u32) -> (out: Vec<u8>)
    ensures
        out@ == uint32_bytes(v),
{
    let mut out: Vec<u8> = Vec::new();
    out.push(0x0au8);
    assert(out@ =~= seq![0x0au8]);
    put_be32(&mut out, v);
    out
}

/// A short identifier.
pub fn uuid16(v: u16) -> (out: Vec<u8>)
    ensures
        out@ == uuid16_bytes(v),
{
    let mut out: Vec<u8> = Vec::new();
    out.push(0x19u8);
    assert(out@ =~= seq![0x19u8]);
    put_be16(&mut out, v);
    out
}

/// A long identifier.
pub fn uuid128(v: &[u8; 16]) -> (out: Vec<u8>)
    ensures
        out@ == uuid128_bytes(v@),
{
    let mut out: Vec<u8> = Vec::new();
    out.push(0x1cu8);
    assert(out@ =~= seq![0x1cu8]);
    append(&mut out, v);
    out
}

/// A text with its length in one byte.
pub fn text(v: &str) -> (out: Vec<u8>)
    ensures
        out@ == text_bytes(v.spec_bytes()),
{
    let bytes = v.as_bytes();
    let mut out: Vec<u8> = Vec::new();
    out.push(0x25u8);
    out.push((bytes.len() % 256) as u8);
    assert(out@ =~= seq![0x25u8, (bytes@.len() % 256) as u8]);
    append(&mut out, bytes);
    out
}

/// A sequence of elements with its length in one byte.
pub fn sequence(body: &[u8]) -> (out: Vec<u8>)
    ensures
        out@ == sequence_bytes(body@),
{
    let mut out: Vec<u8> = Vec::new();
    out.push(0x35u8);
    out.push((body.len() % 256) as u8);
    assert(out@ =~= seq![0x35u8, (body@.len() % 256) as u8]);
    append(&mut out, body);
    out
}

/// A message.
pub fn packet(pdu: u8, tid: u16, params: &[u8]) -> (out: Vec<u8>)
    ensures
        out@ == packet_bytes(pdu, tid, params@),
        out@.len() == 5 + params@.len(),
        params@.len() <= 0xffff ==> u16_be(out@, 3) == params@.len(),
{
    let mut out: Vec<u8> = Vec::new();
    out.push(pdu);
    assert(out@ =~= seq![pdu]);
    put_be16(&mut out, tid);
    put_be16(&mut out, (params.len() % 0x1_0000) as u16);
    append(&mut out, params);
    out
}

/// An error answer.
pub fn error(tid: u16, code: u16) -> (out: Vec<u8>)
    ensures
        out@ == error_bytes(tid, code),
{
    let mut params: Vec<u8> = Vec::new();
    put_be16(&mut params, code);
    assert(params@ =~= be16(code));
    packet(RSP_ERROR, tid, &params)
}

/// The protocols of a service: L2CAP, then RFCOMM on its channel.
pub open spec fn protocol_bytes(channel: u8) -> Seq<u8> {
    sequence_bytes(
        sequence_bytes(uuid16_bytes(UUID_L2CAP))
            + sequence_bytes(uuid16_bytes(UUID_RFCOMM) + uint8_bytes(channel)),
    )
}

/// The profile of a service: the serial port, version one.
pub open spec fn profile_bytes() -> Seq<u8> {
    sequence_bytes(sequence_bytes(uuid16_bytes(UUID_SERIAL_PORT) + uint16_bytes(0x0100)))
}

/// Every attribute of one service, in ascending order.
pub open spec fn attributes_of(s: Service) -> Seq<(u16, Seq<u8>)> {
    seq![
        (0x0000u16, uint32_bytes(s.handle)),
        (0x0001u16, sequence_bytes(uuid128_bytes(s.uuid))),
        (0x0002u16, uint32_bytes(0)),
        (0x0004u16, protocol_bytes(s.channel)),
        (0x0005u16, sequence_bytes(uuid16_bytes(UUID_BROWSE_ROOT))),
        (0x0008u16, uint8_bytes(0xff)),
        (0x0009u16, profile_bytes()),
        (0x0100u16, text_bytes(encode_utf8(s.name))),
    ]
}

/// Attributes as id and value, those that were asked for alone.
pub open spec fn picked(list: Seq<(u16, Seq<u8>)>, attrs: Seq<u8>) -> Seq<u8>
    decreases list.len(),
{
    if list.len() == 0 {
        Seq::empty()
    } else if is_asked(attrs, list.last().0) {
        picked(list.drop_last(), attrs) + uint16_bytes(list.last().0) + list.last().1
    } else {
        picked(list.drop_last(), attrs)
    }
}

/// One record, keeping only the attributes that were asked for.
pub open spec fn record_bytes(s: Service, attrs: Seq<u8>) -> Seq<u8> {
    sequence_bytes(picked(attributes_of(s), attrs))
}

/// The attributes a list of pairs holds.
pub open spec fn pairs(list: Seq<(u16, Vec<u8>)>) -> Seq<(u16, Seq<u8>)> {
    Seq::new(list.len(), |i: int| (list[i].0, list[i].1@))
}

fn join2(a: Vec<u8>, b: Vec<u8>) -> (out: Vec<u8>)
    ensures
        out@ == a@ + b@,
{
    let mut out = a;
    append(&mut out, &b);
    out
}

/// Every attribute of one record, in ascending order.
pub fn attributes(record: &Record) -> (out: Vec<(u16, Vec<u8>)>)
    ensures
        pairs(out@) == attributes_of(record@),
{
    let first = sequence(&uuid16(UUID_L2CAP));
    let second = sequence(&join2(uuid16(UUID_RFCOMM), uint8(record.channel)));
    let protocol = sequence(&join2(first, second));
    let profile = sequence(&sequence(&join2(uuid16(UUID_SERIAL_PORT), uint16(0x0100))));
    let mut out: Vec<(u16, Vec<u8>)> = Vec::new();
    out.push((0x0000, uint32(record.handle)));
    out.push((0x0001, sequence(&uuid128(&record.uuid))));
    out.push((0x0002, uint32(0)));
    out.push((0x0004, protocol));
    out.push((0x0005, sequence(&uuid16(UUID_BROWSE_ROOT))));
    out.push((0x0008, uint8(0xff)));
    out.push((0x0009, profile));
    out.push((0x0100, text(record.name)));
    assert(pairs(out@) =~= attributes_of(record@));
    out
}

/// One record, keeping only the attributes that were asked for.
pub fn record(r: &Record, attrs: &[u8]) -> (out: Vec<u8>)
    ensures
        out@ == record_bytes(r@, attrs@),
{
    let list = attributes(r);
    let ghost all = pairs(list@);
    let mut out: Vec<u8> = Vec::new();
    let mut i: usize = 0;
    assert(out@ =~= picked(all.take(0), attrs@));
    while i < list.len()
        invariant
            i <= list@.len(),
            all == pairs(list@),
            out@ == picked(all.take(i as int), attrs@),
        decreases list@.len() - i,
    {
        assert(all.take(i + 1).drop_last() =~= all.take(i as int));
        assert(all.take(i + 1).last() == (list@[i as int].0, list@[i as int].1@));
        let id: u16 = list[i].0;
        if asked(attrs, id) {
            append(&mut out, &uint16(id));
            append(&mut out, &list[i].1);
        }
        i += 1;
    }
    assert(all.take(i as int) =~= all);
    sequence(&out)
}

/// What one request gets: where the piece starts and ends.
pub open spec fn piece(full: Seq<u8>, start: int, max: int) -> (int, int) {
    let room = if max < 1 { 1 } else if max > PDU_MAX { PDU_MAX as int } else { max };
    let from = if start < full.len() { start } else { full.len() as int };
    (from, if from + room < full.len() { from + room } else { full.len() as int })
}

/// What tells the client where to carry on, or that it has everything.
pub open spec fn carry_on(to: int, len: int) -> Seq<u8> {
    if to < len { seq![2u8, (to / 256 % 256) as u8, (to % 256) as u8] } else { seq![0u8] }
}

/// Cuts the answer to what the client takes, and says where to carry on.
pub fn slice(full: &[u8], start: usize, max: usize) -> (r: (&[u8], Vec<u8>))
    ensures
        ({
            let (from, to) = piece(full@, start as int, max as int);
            &&& r.0@ == full@.subrange(from, to)
            &&& r.1@ == carry_on(to, full@.len() as int)
            &&& r.0@.len() <= PDU_MAX
            &&& r.1@.len() <= 3
        }),
{
    let room: usize = if max < 1 { 1 } else if max > PDU_MAX { PDU_MAX } else { max };
    let from: usize = if start < full.len() { start } else { full.len() };
    let to: usize = if room < full.len() - from { from + room } else { full.len() };
    let mut next: Vec<u8> = Vec::new();
    if to < full.len() {
        next.push(2u8);
        next.push((to / 256 % 256) as u8);
        next.push((to % 256) as u8);
    } else {
        next.push(0u8);
    }
    assert(next@ =~= carry_on(to as int, full@.len() as int));
    (vstd::slice::slice_subrange(full, from, to), next)
}

/// Where a request wants the answer to carry on.
pub open spec fn resume(rest: Seq<u8>) -> int {
    if rest.len() >= 3 && rest[0] == 2 { rest[1] * 256 + rest[2] } else { 0 }
}

/// Where a request wants the answer to carry on, from the state it echoed back.
pub fn continuation(rest: &[u8]) -> (r: usize)
    ensures
        r == resume(rest@),
{
    if rest.len() >= 3 && rest[0] == 2 {
        rest[1] as usize * 256 + rest[2] as usize
    } else {
        0
    }
}

/// The records a pattern asks for, one after the other.
pub open spec fn found(list: Seq<Service>, pattern: Seq<u8>, attrs: Seq<u8>) -> Seq<u8>
    decreases list.len(),
{
    if list.len() == 0 {
        Seq::empty()
    } else if is_wanted(pattern, list.last().uuid) {
        found(list.drop_last(), pattern, attrs) + record_bytes(list.last(), attrs)
    } else {
        found(list.drop_last(), pattern, attrs)
    }
}

/// The parameters of an answer that hands a piece of a list over.
pub open spec fn piece_params(full: Seq<u8>, start: int, max: int) -> Seq<u8> {
    let (from, to) = piece(full, start, max);
    be16((to - from) as u16) + full.subrange(from, to) + carry_on(to, full.len() as int)
}

/// The answer to a search for attributes.
pub open spec fn search_attribute_answer(tid: u16, body: Seq<u8>) -> Seq<u8> {
    match shape(body) {
        None => error_bytes(tid, ERROR_SYNTAX),
        Some((from, end)) => {
            let pattern = body.subrange(from, end);
            let rest = body.skip(end);
            if rest.len() < 2 {
                error_bytes(tid, ERROR_SYNTAX)
            } else {
                let tail = rest.skip(2);
                match shape(tail) {
                    None => error_bytes(tid, ERROR_SYNTAX),
                    Some((f, e)) => packet_bytes(
                        RSP_SEARCH_ATTRIBUTE,
                        tid,
                        piece_params(
                            sequence_bytes(found(services(), pattern, tail.subrange(f, e))),
                            resume(tail.skip(e)),
                            u16_be(rest, 0) as int,
                        ),
                    ),
                }
            }
        },
    }
}

fn put_piece(full: &[u8], start: usize, max: usize) -> (params: Vec<u8>)
    ensures
        params@ == piece_params(full@, start as int, max as int),
        params@.len() <= PDU_MAX + 5,
{
    let (chunk, next) = slice(full, start, max);
    let mut params: Vec<u8> = Vec::new();
    put_be16(&mut params, chunk.len() as u16);
    assert(params@ =~= be16(chunk@.len() as u16));
    append(&mut params, chunk);
    append(&mut params, &next);
    params
}

/// The records a pattern asks for, one after the other.
fn find_records(pattern: &[u8], attrs: &[u8]) -> (hits: Vec<u8>)
    ensures
        hits@ == found(services(), pattern@, attrs@),
{
    let all = records();
    let mut hits: Vec<u8> = Vec::new();
    let ghost s = services();
    assert(s.take(2) =~= s);
    assert(s.take(2).drop_last() =~= s.take(1));
    assert(s.take(1).drop_last() =~= s.take(0));
    assert(found(s.take(0), pattern@, attrs@) =~= Seq::<u8>::empty());
    if wanted(pattern, &all[0]) {
        append(&mut hits, &record(&all[0], attrs));
    }
    assert(hits@ =~= found(s.take(1), pattern@, attrs@));
    if wanted(pattern, &all[1]) {
        append(&mut hits, &record(&all[1], attrs));
    }
    assert(hits@ =~= found(s.take(2), pattern@, attrs@));
    hits
}

/// Which records match, and their attributes.
pub fn search_attribute(tid: u16, body: &[u8]) -> (r: Vec<u8>)
    ensures
        r@ == search_attribute_answer(tid, body@),
        5 <= r@.len() <= PDU_MAX + 10,
        u16_be(r@, 3) == r@.len() - 5,
{
    let (pattern, rest) = match element(body) {
        Some(x) => x,
        None => {
            return error(tid, ERROR_SYNTAX);
        },
    };
    if rest.len() < 2 {
        return error(tid, ERROR_SYNTAX);
    }
    let max: usize = get_be16(rest, 0) as usize;
    let tail = vstd::slice::slice_subrange(rest, 2, rest.len());
    assert(tail@ =~= rest@.skip(2));
    let (attrs, last) = match element(tail) {
        Some(x) => x,
        None => {
            return error(tid, ERROR_SYNTAX);
        },
    };
    let start: usize = continuation(last);
    let hits = find_records(pattern, attrs);
    let lists = sequence(&hits);
    let params = put_piece(&lists, start, max);
    packet(RSP_SEARCH_ATTRIBUTE, tid, &params)
}

/// The answer to a request for one record by its handle.
pub open spec fn attribute_answer(tid: u16, body: Seq<u8>) -> Seq<u8> {
    if body.len() < 6 {
        error_bytes(tid, ERROR_SYNTAX)
    } else {
        let tail = body.skip(6);
        match shape(tail) {
            None => error_bytes(tid, ERROR_SYNTAX),
            Some((f, e)) => {
                let handle = u32_be(body, 0);
                let attrs = tail.subrange(f, e);
                let list = if handle == services()[0].handle {
                    record_bytes(services()[0], attrs)
                } else if handle == services()[1].handle {
                    record_bytes(services()[1], attrs)
                } else {
                    sequence_bytes(Seq::empty())
                };
                packet_bytes(RSP_ATTRIBUTE, tid, piece_params(list, resume(tail.skip(e)), u16_be(body, 4) as int))
            },
        }
    }
}

/// The same answer, asked for one record by its handle.
pub fn attribute(tid: u16, body: &[u8]) -> (r: Vec<u8>)
    ensures
        r@ == attribute_answer(tid, body@),
        5 <= r@.len() <= PDU_MAX + 10,
        u16_be(r@, 3) == r@.len() - 5,
{
    if body.len() < 6 {
        return error(tid, ERROR_SYNTAX);
    }
    let handle: u32 = get_be32(body, 0);
    let max: usize = get_be16(body, 4) as usize;
    let tail = vstd::slice::slice_subrange(body, 6, body.len());
    assert(tail@ =~= body@.skip(6));
    let (attrs, last) = match element(tail) {
        Some(x) => x,
        None => {
            return error(tid, ERROR_SYNTAX);
        },
    };
    let start: usize = continuation(last);
    let all = records();
    let list = if handle == all[0].handle {
        record(&all[0], attrs)
    } else if handle == all[1].handle {
        record(&all[1], attrs)
    } else {
        let none: Vec<u8> = Vec::new();
        sequence(&none)
    };
    let params = put_piece(&list, start, max);
    packet(RSP_ATTRIBUTE, tid, &params)
}

/// The handles of the services a pattern asks for.
pub open spec fn handles(pattern: Seq<u8>) -> Seq<u32> {
    (if is_wanted(pattern, services()[0].uuid) { seq![services()[0].handle] } else { Seq::empty() })
        + (if is_wanted(pattern, services()[1].uuid) { seq![services()[1].handle] } else { Seq::empty() })
}

/// Handles in the byte order of the wire.
pub open spec fn handle_bytes(list: Seq<u32>) -> Seq<u8>
    decreases list.len(),
{
    if list.len() == 0 { Seq::empty() } else { handle_bytes(list.drop_last()) + be32(list.last()) }
}

/// The answer to a search for records: how many there are, twice, their handles, and that this
/// is all.
pub open spec fn service_search_answer(tid: u16, body: Seq<u8>) -> Seq<u8> {
    match shape(body) {
        None => error_bytes(tid, ERROR_SYNTAX),
        Some((from, end)) => {
            let hits = handles(body.subrange(from, end));
            packet_bytes(
                RSP_SERVICE_SEARCH,
                tid,
                be16(hits.len() as u16) + be16(hits.len() as u16) + handle_bytes(hits) + seq![0u8],
            )
        },
    }
}

/// Which record handles match.
pub fn service_search(tid: u16, body: &[u8]) -> (r: Vec<u8>)
    ensures
        r@ == service_search_answer(tid, body@),
        5 <= r@.len() <= PDU_MAX + 10,
        u16_be(r@, 3) == r@.len() - 5,
{
    let (pattern, _rest) = match element(body) {
        Some(x) => x,
        None => {
            return error(tid, ERROR_SYNTAX);
        },
    };
    let all = records();
    let mut hits: Vec<u32> = Vec::new();
    if wanted(pattern, &all[0]) {
        hits.push(all[0].handle);
    }
    if wanted(pattern, &all[1]) {
        hits.push(all[1].handle);
    }
    assert(hits@ =~= handles(pattern@));
    let mut params: Vec<u8> = Vec::new();
    put_be16(&mut params, hits.len() as u16);
    assert(params@ =~= be16(hits@.len() as u16));
    put_be16(&mut params, hits.len() as u16);
    let ghost head = params@;
    assert(params@ =~= head + handle_bytes(hits@.take(0)));
    let mut i: usize = 0;
    while i < hits.len()
        invariant
            i <= hits@.len() <= 2,
            head.len() == 4,
            params@ == head + handle_bytes(hits@.take(i as int)),
            params@.len() == 4 + 4 * i,
        decreases hits@.len() - i,
    {
        put_be32(&mut params, hits[i]);
        assert(hits@.take(i + 1).drop_last() =~= hits@.take(i as int));
        assert(params@ =~= head + handle_bytes(hits@.take(i + 1)));
        i += 1;
    }
    assert(hits@.take(i as int) =~= hits@);
    params.push(0u8);
    assert(params@ =~= head + handle_bytes(hits@) + seq![0u8]);
    packet(RSP_SERVICE_SEARCH, tid, &params)
}

/// The reply to one request.
pub open spec fn answer_to(req: Seq<u8>) -> Seq<u8> {
    if req.len() < 5 {
        error_bytes(0, ERROR_SYNTAX)
    } else {
        let tid = u16_be(req, 1);
        let body = req.skip(5);
        if req[0] == REQ_SEARCH_ATTRIBUTE {
            search_attribute_answer(tid, body)
        } else if req[0] == REQ_ATTRIBUTE {
            attribute_answer(tid, body)
        } else if req[0] == REQ_SERVICE_SEARCH {
            service_search_answer(tid, body)
        } else {
            error_bytes(tid, ERROR_SYNTAX)
        }
    }
}

/// Builds the reply to one request, or an error when it cannot be read. Every reply says how
/// long its parameters are.
pub fn answer(req: &[u8]) -> (r: Vec<u8>)
    ensures
        r@ == answer_to(req@),
        5 <= r@.len() <= PDU_MAX + 10,
        u16_be(r@, 3) == r@.len() - 5,
{
    if req.len() < 5 {
        return error(0, ERROR_SYNTAX);
    }
    let tid: u16 = get_be16(req, 1);
    let body = vstd::slice::slice_subrange(req, 5, req.len());
    assert(body@ =~= req@.skip(5));
    match req[0] {
        REQ_SEARCH_ATTRIBUTE => search_attribute(tid, body),
        REQ_ATTRIBUTE => attribute(tid, body),
        REQ_SERVICE_SEARCH => service_search(tid, body),
        _ => error(tid, ERROR_SYNTAX),
    }
}

/// A plain browse: every record, every attribute.
pub open spec fn browse() -> Seq<u8> {
    packet_bytes(
        REQ_SEARCH_ATTRIBUTE,
        1,
        sequence_bytes(uuid16_bytes(UUID_BROWSE_ROOT)) + be16(0xffff)
            + sequence_bytes(uint32_bytes(0x0000_ffff)) + seq![0u8],
    )
}

/// The answer to a plain browse, in hexadecimal.
pub fn dump() -> (out: String)
    ensures
        out@ == hex_text(answer_to(browse())),
{
    let mut params = sequence(&uuid16(UUID_BROWSE_ROOT));
    put_be16(&mut params, 0xffff);
    append(&mut params, &sequence(&uint32(0x0000_ffff)));
    params.push(0u8);
    assert(params@ =~= sequence_bytes(uuid16_bytes(UUID_BROWSE_ROOT)) + be16(0xffff)
        + sequence_bytes(uint32_bytes(0x0000_ffff)) + seq![0u8]);
    let reply = answer(&packet(REQ_SEARCH_ATTRIBUTE, 1, &params));
    hex_of(&reply)
}

/// Whether the element at the front of some bytes has a payload, with what follows as the rest.
pub open spec fn carries(body: Seq<u8>, value: Seq<u8>, rest: Seq<u8>) -> bool {
    shape(body) matches Some((from, end)) && 0 < from <= end <= body.len()
        && body.subrange(from, end) == value && body.skip(end) == rest
}

/// Every element carries its length: whatever follows it, its payload is read back and the rest
/// is left alone. A text or a sequence carries up to 255 bytes.
pub proof fn elements_carry_their_length(small: u8, short: u16, long: u32, uuid: Seq<u8>, body: Seq<u8>, rest: Seq<u8>)
    requires
        uuid.len() == 16,
        body.len() <= 255,
    ensures
        carries(uint8_bytes(small) + rest, seq![small], rest),
        carries(uint16_bytes(short) + rest, be16(short), rest),
        carries(uint32_bytes(long) + rest, be32(long), rest),
        carries(uuid16_bytes(short) + rest, be16(short), rest),
        carries(uuid128_bytes(uuid) + rest, uuid, rest),
        carries(text_bytes(body) + rest, body, rest),
        carries(sequence_bytes(body) + rest, body, rest),
{
    carry(uint8_bytes(small), 1, seq![small], rest);
    carry(uint16_bytes(short), 1, be16(short), rest);
    carry(uint32_bytes(long), 1, be32(long), rest);
    carry(uuid16_bytes(short), 1, be16(short), rest);
    carry(uuid128_bytes(uuid), 1, uuid, rest);
    carry(text_bytes(body), 2, body, rest);
    carry(sequence_bytes(body), 2, body, rest);
}

proof fn carry(e: Seq<u8>, from: int, value: Seq<u8>, rest: Seq<u8>)
    requires
        1 <= from <= 2,
        e.len() == from + value.len(),
        e.skip(from) =~= value,
        shape(e + rest) == Some((from, e.len() as int)),
    ensures
        carries(e + rest, value, rest),
{
    let body = e + rest;
    assert(body.subrange(from, e.len() as int) =~= e.skip(from));
    assert(body.skip(e.len() as int) =~= rest);
}

/// The browse root asks for every record, and a long identifier for its own alone.
pub proof fn the_browse_root_finds_everything(uuid: Seq<u8>, other: Seq<u8>)
    requires
        uuid.len() == 16,
        other.len() == 16,
    ensures
        is_wanted(uuid16_bytes(UUID_BROWSE_ROOT), uuid),
        is_wanted(uuid128_bytes(other), uuid) == (other == uuid),
{
    let none = Seq::<u8>::empty();
    elements_carry_their_length(0, UUID_BROWSE_ROOT, 0, other, none, none);
    let root = uuid16_bytes(UUID_BROWSE_ROOT);
    assert(root + none =~= root);
    elements_from(root, none);
    assert(hits(elements(root)[0], uuid));
    let long = uuid128_bytes(other);
    assert(long + none =~= long);
    elements_from(long, none);
    assert(elements(none).len() == 0);
    assert(elements(long)[0] == other);
    assert(hits(elements(long)[0], uuid) == (other == uuid));
}

/// A range asks for every id it spans and for no other.
pub proof fn a_range_covers_its_ids(first: u16, last: u16, id: u16)
    ensures
        is_asked(seq![0x0au8] + be16(first) + be16(last), id) == (first <= id <= last),
{
    let none = Seq::<u8>::empty();
    let body = seq![0x0au8] + be16(first) + be16(last);
    let value = be16(first) + be16(last);
    assert(body.skip(1) =~= value);
    assert(body + none =~= body);
    carry(body, 1, value, none);
    elements_from(body, none);
    assert(elements(none).len() == 0);
    assert(elements(body)[0] == value);
    assert(names(value, id) == (first <= id <= last));
}

/// What a client gets that follows the answers from a place to the end, with a limit of its own for
/// each request.
pub open spec fn followed(full: Seq<u8>, start: int, limits: spec_fn(nat) -> int, k: nat) -> Seq<u8>
    decreases full.len() - start,
{
    let (from, to) = piece(full, start, limits(k));
    let next = resume(carry_on(to, full.len() as int));
    if start < 0 || start >= full.len() || to >= full.len() || next <= start || next > full.len() {
        full.subrange(from, to)
    } else {
        full.subrange(from, to) + followed(full, next, limits, k + 1)
    }
}

/// A long answer is handed over in pieces that make the whole again, however little the client
/// takes at once and however that changes from request to request. The place to carry on is told in
/// two bytes.
pub proof fn the_pieces_make_the_whole(full: Seq<u8>, start: int, limits: spec_fn(nat) -> int, k: nat)
    requires
        full.len() <= 0xffff,
        0 <= start <= full.len(),
    ensures
        followed(full, start, limits, k) == full.skip(start),
    decreases full.len() - start,
{
    let (from, to) = piece(full, start, limits(k));
    if to < full.len() {
        assert(resume(carry_on(to, full.len() as int)) == to);
        the_pieces_make_the_whole(full, to, limits, k + 1);
        assert(full.subrange(from, to) + full.skip(to) =~= full.skip(start));
    } else {
        assert(full.subrange(from, to) =~= full.skip(start));
    }
}

proof fn picked_len(list: Seq<(u16, Seq<u8>)>, attrs: Seq<u8>, limit: Seq<int>)
    requires
        list.len() == limit.len(),
        forall|i: int| 0 <= i < list.len() ==> (#[trigger] list[i]).1.len() + 3 <= limit[i],
    ensures
        picked(list, attrs).len() <= sum(limit),
    decreases list.len(),
{
    if list.len() > 0 {
        let front = list.drop_last();
        assert forall|i: int| 0 <= i < front.len() implies (#[trigger] front[i]).1.len() + 3 <= limit.drop_last()[i] by {
            assert(front[i] == list[i]);
        }
        picked_len(front, attrs, limit.drop_last());
        assert(list[list.len() - 1].1.len() + 3 <= limit[list.len() - 1]);
    }
}

spec fn sum(list: Seq<int>) -> int
    decreases list.len(),
{
    if list.len() == 0 { 0 } else { sum(list.drop_last()) + list.last() }
}

proof fn record_len(s: Service, attrs: Seq<u8>)
    requires
        s.uuid.len() == 16,
        encode_utf8(s.name).len() <= 12,
    ensures
        record_bytes(s, attrs).len() <= 100,
{
    let limit = seq![8int, 22int, 8int, 17int, 8int, 5int, 13int, 17int];
    picked_len(attributes_of(s), attrs, limit);
    reveal_with_fuel(sum, 10);
    assert(limit.drop_last().drop_last().drop_last().drop_last().drop_last().drop_last().drop_last().drop_last().len() == 0);
    assert(sum(limit) == 98);
}

/// Whatever is asked for, the list of what was found is one element that carries its length.
pub proof fn the_list_is_one_element(pattern: Seq<u8>, attrs: Seq<u8>)
    ensures
        found(services(), pattern, attrs).len() <= 255,
        carries(
            sequence_bytes(found(services(), pattern, attrs)),
            found(services(), pattern, attrs),
            Seq::empty(),
        ),
{
    reveal_strlit("Wireless iAP");
    reveal_strlit("CarPlay");
    is_ascii_chars_encode_utf8(IAP_NAME@);
    is_ascii_chars_encode_utf8(CARPLAY_NAME@);
    let s = services();
    record_len(s[0], attrs);
    record_len(s[1], attrs);
    assert(s.drop_last().drop_last().len() == 0);
    assert(s.drop_last().last() == s[0]);
    assert(s.last() == s[1]);
    assert(found(s.drop_last().drop_last(), pattern, attrs).len() == 0);
    assert(found(s.drop_last(), pattern, attrs).len() <= 100);
    let f = found(s, pattern, attrs);
    assert(f.len() <= 200);
    let none = Seq::<u8>::empty();
    assert(sequence_bytes(f) + none =~= sequence_bytes(f));
    assert(sequence_bytes(f).skip(2) =~= f);
    carry(sequence_bytes(f), 2, f, none);
}

/// A request for the attributes of services, as a phone writes it: what it looks for, how much it
/// takes at once, which attributes it wants, and where to carry on.
pub open spec fn search_request(tid: u16, pattern: Seq<u8>, max: u16, attrs: Seq<u8>, state: Seq<u8>) -> Seq<u8> {
    let params = seq![0x35u8, pattern.len() as u8] + pattern + be16(max) + seq![0x35u8, attrs.len() as u8] + attrs + state;
    seq![0x06u8] + be16(tid) + be16(params.len() as u16) + params
}

/// The piece a reply hands over, by the length in front of it.
pub open spec fn handed(reply: Seq<u8>) -> Seq<u8> {
    reply.subrange(7, 7 + u16_be(reply, 5))
}

/// The state a reply ends with, which the next request echoes.
pub open spec fn told(reply: Seq<u8>) -> Seq<u8> {
    reply.skip(7 + u16_be(reply, 5))
}

/// A browse: what is looked for and which attributes, with how much is taken and which transaction it
/// is for each request.
pub struct Browse {
    pub pattern: Seq<u8>,
    pub attrs: Seq<u8>,
    pub max: spec_fn(nat) -> u16,
    pub tid: spec_fn(nat) -> u16,
}

/// The state the `k`th request of a browse is sent with: none at first, then what the reply before
/// told.
pub open spec fn state_of(b: Browse, k: nat) -> Seq<u8>
    decreases k, 0nat,
{
    if k == 0 { seq![0u8] } else { told(reply_of(b, (k - 1) as nat)) }
}

/// The reply to a request for the attributes of services.
#[verifier::opaque]
pub open spec fn replied(tid: u16, pattern: Seq<u8>, max: u16, attrs: Seq<u8>, state: Seq<u8>) -> Seq<u8> {
    answer_to(search_request(tid, pattern, max, attrs, state))
}

/// The `k`th reply of a browse.
pub open spec fn reply_of(b: Browse, k: nat) -> Seq<u8>
    decreases k, 1nat,
{
    replied((b.tid)(k), b.pattern, (b.max)(k), b.attrs, state_of(b, k))
}

/// What a client has after `n` replies.
pub open spec fn collected(b: Browse, n: nat) -> Seq<u8>
    decreases n,
{
    if n == 0 { Seq::empty() } else { collected(b, (n - 1) as nat) + handed(reply_of(b, (n - 1) as nat)) }
}

/// What a client gets that takes everything at once.
pub open spec fn whole_list(b: Browse) -> Seq<u8> {
    handed(replied(1, b.pattern, 0xffff, b.attrs, seq![0u8]))
}

/// How the body of a request is read.
proof fn body_is_read(tid: u16, body: Seq<u8>, pattern: Seq<u8>, rest: Seq<u8>, attrs: Seq<u8>, state: Seq<u8>)
    requires
        carries(body, pattern, rest),
        rest.len() >= 2,
        carries(rest.skip(2), attrs, state),
    ensures
        search_attribute_answer(tid, body) == packet_bytes(
            0x07,
            tid,
            piece_params(sequence_bytes(found(services(), pattern, attrs)), resume(state), u16_be(rest, 0) as int),
        ),
{
}

/// How the head of a request is read.
proof fn head_is_read(tid: u16, len: u16, body: Seq<u8>)
    ensures
        answer_to(seq![0x06u8] + be16(tid) + be16(len) + body) == search_attribute_answer(tid, body),
{
    let req = seq![0x06u8] + be16(tid) + be16(len) + body;
    assert(req.skip(5) =~= body);
    assert(req.subrange(1, 3) =~= be16(tid));
    crate::bytes::integers_read_back(req, 1, tid, 0);
}

/// The list of what is found, as it is handed over.
#[verifier::opaque]
pub open spec fn list_of(pattern: Seq<u8>, attrs: Seq<u8>) -> Seq<u8> {
    sequence_bytes(found(services(), pattern, attrs))
}

proof fn list_len(pattern: Seq<u8>, attrs: Seq<u8>)
    ensures
        2 <= list_of(pattern, attrs).len() <= 257,
{
    reveal(list_of);
    the_list_is_one_element(pattern, attrs);
}

/// How the parts of a request stand in its body.
proof fn parts_carry(pattern: Seq<u8>, max: u16, attrs: Seq<u8>, state: Seq<u8>)
    requires
        pattern.len() <= 255,
        attrs.len() <= 255,
    ensures
        ({
            let body = seq![0x35u8, pattern.len() as u8] + pattern + be16(max) + seq![0x35u8, attrs.len() as u8] + attrs + state;
            let rest = be16(max) + (sequence_bytes(attrs) + state);
            &&& carries(body, pattern, rest)
            &&& rest.len() >= 2
            &&& u16_be(rest, 0) == max
            &&& carries(rest.skip(2), attrs, state)
        }),
{
    let body = seq![0x35u8, pattern.len() as u8] + pattern + be16(max) + seq![0x35u8, attrs.len() as u8] + attrs + state;
    let tail = sequence_bytes(attrs) + state;
    let rest = be16(max) + tail;
    assert(sequence_bytes(attrs) =~= seq![0x35u8, attrs.len() as u8] + attrs);
    assert(sequence_bytes(pattern) =~= seq![0x35u8, pattern.len() as u8] + pattern);
    regroup(seq![0x35u8, pattern.len() as u8] + pattern, be16(max), seq![0x35u8, attrs.len() as u8], attrs, state);
    sequence_carries(pattern, rest);
    assert(rest.subrange(0, 2) =~= be16(max));
    crate::bytes::integers_read_back(rest, 0, max, 0);
    assert(rest.skip(2) =~= tail);
    sequence_carries(attrs, state);
}

proof fn regroup(a: Seq<u8>, b: Seq<u8>, c: Seq<u8>, d: Seq<u8>, e: Seq<u8>)
    ensures
        a + b + c + d + e == a + (b + (c + d + e)),
{
    assert(a + b + c + d + e =~= a + (b + (c + d + e)));
}

/// How a request is read.
proof fn request_is_read(tid: u16, pattern: Seq<u8>, max: u16, attrs: Seq<u8>, state: Seq<u8>)
    requires
        pattern.len() <= 255,
        attrs.len() <= 255,
    ensures
        replied(tid, pattern, max, attrs, state)
            == packet_bytes(0x07, tid, piece_params(list_of(pattern, attrs), resume(state), max as int)),
{
    reveal(replied);
    reveal(list_of);
    let body = seq![0x35u8, pattern.len() as u8] + pattern + be16(max) + seq![0x35u8, attrs.len() as u8] + attrs + state;
    parts_carry(pattern, max, attrs, state);
    reads(tid, body.len() as u16, body, pattern, be16(max) + (sequence_bytes(attrs) + state), attrs, state);
}

proof fn reads(tid: u16, len: u16, body: Seq<u8>, pattern: Seq<u8>, rest: Seq<u8>, attrs: Seq<u8>, state: Seq<u8>)
    requires
        carries(body, pattern, rest),
        rest.len() >= 2,
        carries(rest.skip(2), attrs, state),
    ensures
        answer_to(seq![0x06u8] + be16(tid) + be16(len) + body) == packet_bytes(
            0x07,
            tid,
            piece_params(sequence_bytes(found(services(), pattern, attrs)), resume(state), u16_be(rest, 0) as int),
        ),
{
    head_is_read(tid, len, body);
    body_is_read(tid, body, pattern, rest, attrs, state);
}

proof fn sequence_carries(body: Seq<u8>, rest: Seq<u8>)
    requires
        body.len() <= 255,
    ensures
        carries(sequence_bytes(body) + rest, body, rest),
{
    carry(sequence_bytes(body), 2, body, rest);
}

/// How a reply is read.
proof fn reply_is_read(tid: u16, full: Seq<u8>, start: int, max: int)
    requires
        full.len() <= 0xffff,
        0 <= start <= full.len(),
    ensures
        ({
            let r = packet_bytes(0x07, tid, piece_params(full, start, max));
            let (from, to) = piece(full, start, max);
            &&& r[0] == 7
            &&& u16_be(r, 1) == tid
            &&& u16_be(r, 3) == r.len() - 5
            &&& handed(r) == full.subrange(from, to)
            &&& told(r) == carry_on(to, full.len() as int)
        }),
{
    let (from, to) = piece(full, start, max);
    let params = piece_params(full, start, max);
    let r = packet_bytes(0x07, tid, params);
    assert(r.subrange(1, 3) =~= be16(tid));
    assert(r.subrange(3, 5) =~= be16((params.len() % 0x1_0000) as u16));
    assert(r.subrange(5, 7) =~= be16((to - from) as u16));
    crate::bytes::integers_read_back(r, 1, tid, 0);
    crate::bytes::integers_read_back(r, 3, (params.len() % 0x1_0000) as u16, 0);
    crate::bytes::integers_read_back(r, 5, (to - from) as u16, 0);
    assert(handed(r) =~= full.subrange(from, to));
    assert(told(r) =~= carry_on(to, full.len() as int));
}

/// What one reply of a browse brings that carries on at a place.
proof fn browse_steps(b: Browse, k: nat, have: int)
    requires
        b.pattern.len() <= 255,
        b.attrs.len() <= 255,
        resume(state_of(b, k)) == have,
        have < list_of(b.pattern, b.attrs).len(),
    ensures
        ({
            let full = list_of(b.pattern, b.attrs);
            let r = reply_of(b, k);
            let to = piece(full, have, (b.max)(k) as int).1;
            &&& full.len() <= 257
            &&& have < to <= full.len()
            &&& to - have <= (if (b.max)(k) == 0 { 1 } else { (b.max)(k) as int })
            &&& r[0] == 7
            &&& u16_be(r, 1) == (b.tid)(k)
            &&& u16_be(r, 3) == r.len() - 5
            &&& handed(r) == full.subrange(have, to)
            &&& told(r) == carry_on(to, full.len() as int)
            &&& to < full.len() ==> told(r).len() == 3 && resume(told(r)) == to
            &&& to == full.len() ==> told(r) == seq![0u8]
        }),
{
    let full = list_of(b.pattern, b.attrs);
    list_len(b.pattern, b.attrs);
    request_is_read((b.tid)(k), b.pattern, (b.max)(k), b.attrs, state_of(b, k));
    reply_is_read((b.tid)(k), full, have, (b.max)(k) as int);
}

/// Where a browse stands that was not told yet that this is all: what was collected is the front of
/// the list, at least a byte for each reply, and the state says where to carry on.
proof fn browse_stands(b: Browse, n: nat)
    requires
        b.pattern.len() <= 255,
        b.attrs.len() <= 255,
        forall|j: nat| 0 < j <= n ==> (#[trigger] state_of(b, j)) != seq![0u8],
    ensures
        ({
            let full = list_of(b.pattern, b.attrs);
            let have = collected(b, n).len() as int;
            &&& n <= have < full.len()
            &&& collected(b, n) == full.take(have)
            &&& resume(state_of(b, n)) == have
        }),
    decreases n,
{
    let full = list_of(b.pattern, b.attrs);
    list_len(b.pattern, b.attrs);
    if n == 0 {
        assert(collected(b, 0) =~= full.take(0));
    } else {
        let m = (n - 1) as nat;
        browse_stands(b, m);
        let have = collected(b, m).len() as int;
        browse_steps(b, m, have);
        let to = piece(full, have, (b.max)(m) as int).1;
        assert(state_of(b, n) == told(reply_of(b, m)));
        assert(state_of(b, n) != seq![0u8]);
        assert(full.take(have) + full.subrange(have, to) =~= full.take(to));
        assert(collected(b, n) == full.take(to));
    }
}

/// Following the replies of a whole browse: a client that starts without a state and echoes back what
/// each reply told, taking as little or as much as it likes with every request, is told after some
/// replies that this is all, and then has the complete list: what it would have got at once.
pub proof fn a_browse_collects_everything(b: Browse) -> (n: nat)
    requires
        b.pattern.len() <= 255,
        b.attrs.len() <= 255,
    ensures
        n > 0,
        state_of(b, n) == seq![0u8],
        forall|j: nat| 0 < j < n ==> (#[trigger] state_of(b, j)) != seq![0u8],
        collected(b, n) == whole_list(b),
{
    let full = list_of(b.pattern, b.attrs);
    list_len(b.pattern, b.attrs);
    request_is_read(1, b.pattern, 0xffff, b.attrs, seq![0u8]);
    reply_is_read(1, full, 0, 0xffff);
    assert(whole_list(b) =~= full);
    let n = browse_ends(b, 0);
    n
}

/// The first reply from some on that says that this is all, with all that was collected by then.
proof fn browse_ends(b: Browse, from: nat) -> (n: nat)
    requires
        b.pattern.len() <= 255,
        b.attrs.len() <= 255,
        forall|j: nat| 0 < j <= from ==> (#[trigger] state_of(b, j)) != seq![0u8],
    ensures
        n > from,
        state_of(b, n) == seq![0u8],
        forall|j: nat| 0 < j < n ==> (#[trigger] state_of(b, j)) != seq![0u8],
        collected(b, n) == list_of(b.pattern, b.attrs),
    decreases 300 - from,
{
    let full = list_of(b.pattern, b.attrs);
    let next = (from + 1) as nat;
    browse_stands(b, from);
    let have = collected(b, from).len() as int;
    browse_steps(b, from, have);
    let to = piece(full, have, (b.max)(from) as int).1;
    assert(state_of(b, next) == told(reply_of(b, from)));
    if state_of(b, next) == seq![0u8] {
        if to < full.len() {
            assert(seq![0u8].len() == 1);
        }
        assert(full.take(have) + full.subrange(have, to) =~= full);
        next
    } else {
        browse_ends(b, next)
    }
}

/// Every reply of a browse says what it answers: it is the answer to a search, of the transaction the
/// request named, as long as it says, and hands over something, but no more than was taken.
pub proof fn a_reply_says_what_it_answers(b: Browse, k: nat)
    requires
        b.pattern.len() <= 255,
        b.attrs.len() <= 255,
        forall|j: nat| 0 < j <= k ==> (#[trigger] state_of(b, j)) != seq![0u8],
    ensures
        reply_of(b, k)[0] == 7,
        u16_be(reply_of(b, k), 1) == (b.tid)(k),
        u16_be(reply_of(b, k), 3) == reply_of(b, k).len() - 5,
        0 < handed(reply_of(b, k)).len() <= (if (b.max)(k) == 0 { 1 } else { (b.max)(k) as int }),
{
    browse_stands(b, k);
    browse_steps(b, k, collected(b, k).len() as int);
}

/// Whether some bytes are elements one after the other, with nothing left over.
pub open spec fn wholly(b: Seq<u8>) -> bool
    decreases b.len(),
{
    b.len() == 0 || (shape(b) matches Some((from, end)) && 0 < from <= end <= b.len() && wholly(b.skip(end)))
}

proof fn shape_extends(a: Seq<u8>, b: Seq<u8>)
    requires
        shape(a) is Some,
    ensures
        shape(a + b) == shape(a),
        shape(a) matches Some((from, end)) && 0 < from <= end <= a.len(),
{
    let c = a + b;
    assert(c[0] == a[0]);
    if a.len() >= 3 {
        assert(u16_be(c, 1) == u16_be(a, 1));
    }
    if a.len() >= 5 {
        assert(u32_be(c, 1) == u32_be(a, 1));
    }
}

/// Elements one after the other are read one after the other.
proof fn elements_join(a: Seq<u8>, b: Seq<u8>)
    requires
        wholly(a),
    ensures
        elements(a + b) == elements(a) + elements(b),
        wholly(b) ==> wholly(a + b),
    decreases a.len(),
{
    if a.len() == 0 {
        assert(a + b =~= b);
        assert(elements(a) + elements(b) =~= elements(b));
    } else {
        shape_extends(a, b);
        let (from, end) = shape(a)->0;
        let rest = a.skip(end);
        elements_join(rest, b);
        assert((a + b).skip(end) =~= rest + b);
        assert((a + b).subrange(from, end) =~= a.subrange(from, end));
        assert(seq![a.subrange(from, end)] + (elements(rest) + elements(b))
            =~= (seq![a.subrange(from, end)] + elements(rest)) + elements(b));
    }
}

/// One element by itself.
proof fn element_alone(v: Seq<u8>, payload: Seq<u8>)
    requires
        carries(v, payload, Seq::empty()),
    ensures
        wholly(v),
        elements(v) == seq![payload],
{
    let (from, end) = shape(v)->0;
    assert(v.skip(end) =~= Seq::<u8>::empty());
    assert(wholly(v.skip(end)));
    assert(elements(v.skip(end)) =~= Seq::<Seq<u8>>::empty());
    assert(elements(v) =~= seq![payload]);
}

/// A search pattern of several elements looks for what any of them looks for, and a list of several
/// attributes asks for what any of them asks for.
pub proof fn every_element_counts(a: Seq<u8>, b: Seq<u8>, uuid: Seq<u8>, id: u16)
    requires
        wholly(a),
    ensures
        is_wanted(a + b, uuid) == (is_wanted(a, uuid) || is_wanted(b, uuid)),
        is_asked(a + b, id) == (is_asked(a, id) || is_asked(b, id)),
{
    elements_join(a, b);
    let (x, y, z) = (elements(a), elements(b), elements(a + b));
    assert(z == x + y);
    assert forall|i: int| 0 <= i < x.len() implies #[trigger] x[i] == z[i] by {}
    assert forall|i: int| 0 <= i < y.len() implies #[trigger] y[i] == z[x.len() + i] by {}
    assert forall|i: int| 0 <= i < z.len() implies #[trigger] z[i] == (if i < x.len() { x[i] } else { y[i - x.len()] }) by {}
}

/// A short identifier finds every service where it is the browse root, L2CAP or RFCOMM, and none
/// otherwise. One attribute asks for itself alone.
pub proof fn short_identifiers(short: u16, uuid: Seq<u8>, id: u16)
    requires
        uuid.len() == 16,
    ensures
        is_wanted(seq![0x19u8] + be16(short), uuid) == (short == 0x1002 || short == 0x0100 || short == 0x0003),
        is_asked(seq![0x09u8] + be16(short), id) == (short == id),
{
    let none = Seq::<u8>::empty();
    elements_carry_their_length(0, short, 0, uuid, none, none);
    let a = uuid16_bytes(short);
    let b = uint16_bytes(short);
    assert(a + none =~= a && b + none =~= b);
    element_alone(a, be16(short));
    element_alone(b, be16(short));
    assert(be16(short).subrange(0, 2) =~= be16(short));
    crate::bytes::integers_read_back(be16(short), 0, short, 0);
    assert(elements(a)[0] == be16(short) && elements(b)[0] == be16(short));
}

/// What a service says, attribute by attribute: its handle, its identifier, that it does not change,
/// its protocols, that it is browsed from the root, that it is there, its profile and its name.
pub open spec fn told_of(s: Service) -> Seq<(u16, Seq<u8>)> {
    seq![
        (0x0000u16, be32(s.handle)),
        (0x0001u16, seq![0x1cu8] + s.uuid),
        (0x0002u16, seq![0u8, 0u8, 0u8, 0u8]),
        (0x0004u16, seq![0x35u8, 3u8, 0x19u8, 1u8, 0u8, 0x35u8, 5u8, 0x19u8, 0u8, 3u8, 8u8, s.channel]),
        (0x0005u16, seq![0x19u8, 0x10u8, 0x02u8]),
        (0x0008u16, seq![0xffu8]),
        (0x0009u16, seq![0x35u8, 6u8, 0x19u8, 0x11u8, 0x01u8, 0x09u8, 0x01u8, 0x00u8]),
        (0x0100u16, encode_utf8(s.name)),
    ]
}

/// The attributes of a list that are asked for, each id followed by its value.
pub open spec fn asked_pairs(list: Seq<(u16, Seq<u8>)>, attrs: Seq<u8>) -> Seq<Seq<u8>>
    decreases list.len(),
{
    if list.len() == 0 {
        Seq::empty()
    } else {
        let front = asked_pairs(list.drop_last(), attrs);
        if is_asked(attrs, list.last().0) { front.push(be16(list.last().0)).push(list.last().1) } else { front }
    }
}

/// Whether values are elements with these payloads.
spec fn matched(list: Seq<(u16, Seq<u8>)>, plain: Seq<(u16, Seq<u8>)>) -> bool {
    list.len() == plain.len() && forall|i: int| 0 <= i < list.len() ==> (#[trigger] list[i]).0 == plain[i].0
        && carries(list[i].1, plain[i].1, Seq::empty())
}

proof fn picked_pairs(list: Seq<(u16, Seq<u8>)>, plain: Seq<(u16, Seq<u8>)>, attrs: Seq<u8>)
    requires
        matched(list, plain),
    ensures
        wholly(picked(list, attrs)),
        elements(picked(list, attrs)) == asked_pairs(plain, attrs),
    decreases list.len(),
{
    if list.len() == 0 {
        assert(elements(picked(list, attrs)) =~= asked_pairs(plain, attrs));
    } else {
        let (front, flat) = (list.drop_last(), plain.drop_last());
        assert(matched(front, flat)) by {
            assert forall|i: int| 0 <= i < front.len() implies (#[trigger] front[i]).0 == flat[i].0
                && carries(front[i].1, flat[i].1, Seq::empty()) by {
                assert(front[i] == list[i]);
            }
        }
        picked_pairs(front, flat, attrs);
        let last = list[list.len() - 1];
        assert(last.0 == plain.last().0);
        if is_asked(attrs, last.0) {
            let id = uint16_bytes(last.0);
            let a = picked(front, attrs);
            id_alone(last.0);
            element_alone(last.1, plain.last().1);
            elements_join(a, id);
            elements_join(a + id, last.1);
            assert(elements(a + id + last.1) =~= asked_pairs(plain, attrs));
        }
    }
}

proof fn id_alone(id: u16)
    ensures
        wholly(uint16_bytes(id)),
        elements(uint16_bytes(id)) == seq![be16(id)],
{
    let none = Seq::<u8>::empty();
    carry(uint16_bytes(id), 1, be16(id), none);
    assert(uint16_bytes(id) + none =~= uint16_bytes(id));
    element_alone(uint16_bytes(id), be16(id));
}

proof fn alone(v: Seq<u8>, from: int, payload: Seq<u8>)
    requires
        1 <= from <= 2,
        v.len() == from + payload.len(),
        v.skip(from) == payload,
        shape(v) == Some((from, v.len() as int)),
    ensures
        carries(v, payload, Seq::empty()),
{
    let none = Seq::<u8>::empty();
    assert(v + none =~= v);
    carry(v, from, payload, none);
}

proof fn plain_sequence(body: Seq<u8>)
    requires
        body.len() <= 255,
    ensures
        carries(sequence_bytes(body), body, Seq::empty()),
        carries(text_bytes(body), body, Seq::empty()),
{
    assert(sequence_bytes(body).skip(2) =~= body);
    assert(text_bytes(body).skip(2) =~= body);
    alone(sequence_bytes(body), 2, body);
    alone(text_bytes(body), 2, body);
}

proof fn attributes_match(s: Service)
    requires
        s.uuid.len() == 16,
        encode_utf8(s.name).len() <= 255,
    ensures
        matched(attributes_of(s), told_of(s)),
{
    let (list, plain) = (attributes_of(s), told_of(s));
    assert(uint32_bytes(s.handle).skip(1) =~= be32(s.handle));
    alone(uint32_bytes(s.handle), 1, be32(s.handle));
    assert(uint32_bytes(0).skip(1) =~= seq![0u8, 0u8, 0u8, 0u8]);
    alone(uint32_bytes(0), 1, seq![0u8, 0u8, 0u8, 0u8]);
    plain_sequence(uuid128_bytes(s.uuid));
    let protocols = seq![0x35u8, 3u8, 0x19u8, 1u8, 0u8, 0x35u8, 5u8, 0x19u8, 0u8, 3u8, 8u8, s.channel];
    let inner = sequence_bytes(uuid16_bytes(UUID_L2CAP)) + sequence_bytes(uuid16_bytes(UUID_RFCOMM) + uint8_bytes(s.channel));
    assert(inner =~= protocols);
    plain_sequence(protocols);
    assert(uuid16_bytes(UUID_BROWSE_ROOT) =~= seq![0x19u8, 0x10u8, 0x02u8]);
    plain_sequence(seq![0x19u8, 0x10u8, 0x02u8]);
    assert(uint8_bytes(0xff).skip(1) =~= seq![0xffu8]);
    alone(uint8_bytes(0xff), 1, seq![0xffu8]);
    let profile = seq![0x35u8, 6u8, 0x19u8, 0x11u8, 0x01u8, 0x09u8, 0x01u8, 0x00u8];
    assert(sequence_bytes(uuid16_bytes(UUID_SERIAL_PORT) + uint16_bytes(0x0100)) =~= profile);
    plain_sequence(profile);
    plain_sequence(encode_utf8(s.name));
    assert forall|i: int| 0 <= i < list.len() implies (#[trigger] list[i]).0 == plain[i].0
        && carries(list[i].1, plain[i].1, Seq::empty()) by {}
}

/// A record is one element, and in it stand the attributes that were asked for, in ascending order,
/// each id in front of its value, and no others.
pub proof fn a_record_tells_what_was_asked(s: Service, attrs: Seq<u8>)
    requires
        s.uuid.len() == 16,
        encode_utf8(s.name).len() <= 12,
    ensures
        carries(record_bytes(s, attrs), picked(attributes_of(s), attrs), Seq::empty()),
        elements(picked(attributes_of(s), attrs)) == asked_pairs(told_of(s), attrs),
{
    record_len(s, attrs);
    attributes_match(s);
    picked_pairs(attributes_of(s), told_of(s), attrs);
    plain_sequence(picked(attributes_of(s), attrs));
}

/// What is found is the records of the services that are looked for, the serial one before CarPlay.
pub proof fn what_is_looked_for_is_found(pattern: Seq<u8>, attrs: Seq<u8>)
    ensures
        elements(found(services(), pattern, attrs))
            == (if is_wanted(pattern, IAP_UUID@) { seq![picked(attributes_of(services()[0]), attrs)] } else { Seq::empty() })
            + (if is_wanted(pattern, CARPLAY_UUID@) { seq![picked(attributes_of(services()[1]), attrs)] } else { Seq::empty() }),
        services()[0].handle == 0x0001_0001 && services()[0].uuid == IAP_UUID@ && services()[0].channel == 3,
        services()[1].handle == 0x0001_0002 && services()[1].uuid == CARPLAY_UUID@ && services()[1].channel == 4,
{
    reveal_strlit("Wireless iAP");
    reveal_strlit("CarPlay");
    is_ascii_chars_encode_utf8(IAP_NAME@);
    is_ascii_chars_encode_utf8(CARPLAY_NAME@);
    let s = services();
    let (r0, r1) = (record_bytes(s[0], attrs), record_bytes(s[1], attrs));
    a_record_tells_what_was_asked(s[0], attrs);
    a_record_tells_what_was_asked(s[1], attrs);
    element_alone(r0, picked(attributes_of(s[0]), attrs));
    element_alone(r1, picked(attributes_of(s[1]), attrs));
    let one = s.drop_last();
    let none = one.drop_last();
    assert(none.len() == 0);
    assert(one.last() == s[0]);
    let e = Seq::<u8>::empty();
    assert(found(none, pattern, attrs) == e);
    assert(elements(e) =~= Seq::<Seq<u8>>::empty());
    let first = found(one, pattern, attrs);
    assert(first =~= (if is_wanted(pattern, IAP_UUID@) { r0 } else { e }));
    assert(wholly(first));
    elements_join(first, r1);
    assert(found(s, pattern, attrs) == (if is_wanted(pattern, CARPLAY_UUID@) { first + r1 } else { first }));
    let want = (if is_wanted(pattern, IAP_UUID@) { seq![picked(attributes_of(s[0]), attrs)] } else { Seq::empty() })
        + (if is_wanted(pattern, CARPLAY_UUID@) { seq![picked(attributes_of(s[1]), attrs)] } else { Seq::empty() });
    assert(elements(found(s, pattern, attrs)) =~= want);
}

/// A request for one record by its handle is answered with that record, and one for an unknown handle
/// with an empty list. It is cut and carried on as any other answer.
pub proof fn a_handle_names_its_record(tid: u16, len: u16, handle: u32, max: u16, attrs: Seq<u8>, state: Seq<u8>)
    requires
        attrs.len() <= 255,
    ensures
        ({
            let req = seq![0x04u8] + be16(tid) + be16(len) + (be32(handle) + be16(max) + (sequence_bytes(attrs) + state));
            let list = if handle == 0x0001_0001 {
                record_bytes(services()[0], attrs)
            } else if handle == 0x0001_0002 {
                record_bytes(services()[1], attrs)
            } else {
                seq![0x35u8, 0u8]
            };
            answer_to(req) == packet_bytes(0x05, tid, piece_params(list, resume(state), max as int))
        }),
{
    let tail = sequence_bytes(attrs) + state;
    let body = be32(handle) + be16(max) + tail;
    let req = seq![0x04u8] + be16(tid) + be16(len) + body;
    assert(req.skip(5) =~= body);
    assert(req.subrange(1, 3) =~= be16(tid));
    crate::bytes::integers_read_back(req, 1, tid, 0);
    assert(sequence_bytes(Seq::empty()) =~= seq![0x35u8, 0u8]);
    assert(body.subrange(0, 4) =~= be32(handle));
    assert(body.subrange(4, 6) =~= be16(max));
    crate::bytes::integers_read_back(body, 0, 0, handle);
    crate::bytes::integers_read_back(body, 4, max, 0);
    assert(body.skip(6) =~= tail);
    sequence_carries(attrs, state);
    attribute_reads(tid, body, tail, attrs, state);
}

proof fn attribute_reads(tid: u16, body: Seq<u8>, tail: Seq<u8>, attrs: Seq<u8>, state: Seq<u8>)
    requires
        body.len() >= 6,
        body.skip(6) == tail,
        carries(tail, attrs, state),
    ensures
        ({
            let handle = u32_be(body, 0);
            let list = if handle == 0x0001_0001 {
                record_bytes(services()[0], attrs)
            } else if handle == 0x0001_0002 {
                record_bytes(services()[1], attrs)
            } else {
                sequence_bytes(Seq::empty())
            };
            attribute_answer(tid, body) == packet_bytes(0x05, tid, piece_params(list, resume(state), u16_be(body, 4) as int))
        }),
{
}

/// A search for records is answered with the handles of the services that are looked for, with how
/// many there are, twice, in front of them.
pub proof fn a_search_gives_the_handles(tid: u16, len: u16, pattern: Seq<u8>, more: Seq<u8>)
    requires
        pattern.len() <= 255,
    ensures
        ({
            let req = seq![0x02u8] + be16(tid) + be16(len) + (sequence_bytes(pattern) + more);
            let (iap, carplay) = (is_wanted(pattern, IAP_UUID@), is_wanted(pattern, CARPLAY_UUID@));
            answer_to(req) == packet_bytes(
                0x03,
                tid,
                if iap && carplay {
                    seq![0u8, 2u8, 0u8, 2u8, 0u8, 1u8, 0u8, 1u8, 0u8, 1u8, 0u8, 2u8, 0u8]
                } else if iap {
                    seq![0u8, 1u8, 0u8, 1u8, 0u8, 1u8, 0u8, 1u8, 0u8]
                } else if carplay {
                    seq![0u8, 1u8, 0u8, 1u8, 0u8, 1u8, 0u8, 2u8, 0u8]
                } else {
                    seq![0u8, 0u8, 0u8, 0u8, 0u8]
                },
            )
        }),
{
    let body = sequence_bytes(pattern) + more;
    let req = seq![0x02u8] + be16(tid) + be16(len) + body;
    assert(req.skip(5) =~= body);
    assert(req.subrange(1, 3) =~= be16(tid));
    crate::bytes::integers_read_back(req, 1, tid, 0);
    sequence_carries(pattern, more);
    let (from, end) = shape(body)->0;
    assert(body.subrange(from, end) == pattern);
    let hits = handles(pattern);
    let (a, b) = (services()[0].handle, services()[1].handle);
    let none = Seq::<u32>::empty();
    assert(handle_bytes(none) =~= Seq::<u8>::empty());
    assert(seq![a].drop_last() =~= none);
    assert(seq![b].drop_last() =~= none);
    assert(seq![a, b].drop_last() =~= seq![a]);
    assert(handle_bytes(seq![a]) =~= seq![0u8, 1u8, 0u8, 1u8]);
    assert(handle_bytes(seq![b]) =~= seq![0u8, 1u8, 0u8, 2u8]);
    assert(handle_bytes(seq![a, b]) =~= seq![0u8, 1u8, 0u8, 1u8, 0u8, 1u8, 0u8, 2u8]);
    let params = be16(hits.len() as u16) + be16(hits.len() as u16) + handle_bytes(hits) + seq![0u8];
    let (iap, carplay) = (is_wanted(pattern, IAP_UUID@), is_wanted(pattern, CARPLAY_UUID@));
    if iap && carplay {
        assert(hits =~= seq![a, b]);
        assert(params =~= seq![0u8, 2u8, 0u8, 2u8, 0u8, 1u8, 0u8, 1u8, 0u8, 1u8, 0u8, 2u8, 0u8]);
    } else if iap {
        assert(hits =~= seq![a]);
        assert(params =~= seq![0u8, 1u8, 0u8, 1u8, 0u8, 1u8, 0u8, 1u8, 0u8]);
    } else if carplay {
        assert(hits =~= seq![b]);
        assert(params =~= seq![0u8, 1u8, 0u8, 1u8, 0u8, 1u8, 0u8, 2u8, 0u8]);
    } else {
        assert(hits =~= none);
        assert(params =~= seq![0u8, 0u8, 0u8, 0u8, 0u8]);
    }
}

/// What cannot be read is answered with a syntax error that names the transaction, where there is
/// one.
pub proof fn an_unreadable_request_is_an_error(req: Seq<u8>)
    ensures
        req.len() < 5 ==> answer_to(req) == seq![1u8, 0u8, 0u8, 0u8, 2u8, 0u8, 3u8],
        req.len() >= 5 && req[0] != 2 && req[0] != 4 && req[0] != 6
            ==> answer_to(req) == seq![1u8, req[1], req[2], 0u8, 2u8, 0u8, 3u8],
        req.len() == 5 && (req[0] == 2 || req[0] == 4 || req[0] == 6)
            ==> answer_to(req) == seq![1u8, req[1], req[2], 0u8, 2u8, 0u8, 3u8],
{
    assert(error_bytes(0, ERROR_SYNTAX) =~= seq![1u8, 0u8, 0u8, 0u8, 2u8, 0u8, 3u8]);
    if req.len() >= 5 {
        let tid = u16_be(req, 1);
        assert(be16(tid) =~= seq![req[1], req[2]]);
        assert(error_bytes(tid, ERROR_SYNTAX) =~= seq![1u8, req[1], req[2], 0u8, 2u8, 0u8, 3u8]);
    }
}

/// A request for a list is answered alike by the whole and by its part: what goes out for a request is what
/// its body is answered with under its transaction.
pub proof fn a_request_is_answered_by_its_part(req: &[u8], tid: u16, body: &[u8], all: Vec<u8>, part: Vec<u8>)
    requires
        call_ensures(answer, (req,), all),
        req@.len() >= 5,
        u16_be(req@, 1) == tid,
        req@.skip(5) == body@,
    ensures
        req@[0] == 0x06 && call_ensures(search_attribute, (tid, body), part) ==> all@ == part@,
        req@[0] == 0x04 && call_ensures(attribute, (tid, body), part) ==> all@ == part@,
        req@[0] == 0x02 && call_ensures(service_search, (tid, body), part) ==> all@ == part@,
        req@[0] != 0x02 && req@[0] != 0x04 && req@[0] != 0x06 ==> all@[0] == 0x01,
{
}

/// What goes out for a request of a browse is the reply that the browse is followed with.
pub proof fn a_browse_is_followed(req: &[u8], b: Browse, k: nat, r: Vec<u8>)
    requires
        call_ensures(answer, (req,), r),
        req@ == search_request((b.tid)(k), b.pattern, (b.max)(k), b.attrs, state_of(b, k)),
    ensures
        r@ == reply_of(b, k),
{
    reveal(replied);
}

} // verus!
