//! The settings a dongle keeps on its flash: a checked blob of named entries, and the rules that
//! move them between the blob and the files the daemons read.

use vstd::prelude::*;
use vstd::utf8::{decode_utf8, encode_utf8, valid_utf8};
use vstd::utf8::{encode_utf8_decode_utf8, encode_utf8_valid_utf8, is_ascii_chars_encode_utf8};

use crate::bytes::{append, append_zeros, copy, copy_range, get_le16, get_le32, integers_read_back};
use crate::bytes::{le16, le32, put_le16, put_le32, same, u16_le, u32_le, until_zero, zero_at, zeros};
use crate::crc::{checksum, crc32};
use crate::text::{begins, dec, find_char, first, lines, lines_of, put_dec, same_text};
use crate::text::{starts_with, trim, trimmed, utf8, views};

verus! {

/// `LVCF`
pub const MAGIC: [u8; 4] = [0x4c, 0x56, 0x43, 0x46];
pub const VERSION_V1: u16 = 1;
pub const VERSION_V2: u16 = 2;
pub const HEADER_LEN: usize = 16;
pub const V2_ENTRY_LEN: usize = 40;
pub const MAX_PAYLOAD: usize = 32768;
pub const MAX_ENTRY: usize = 8192;

pub const TMPFS_LED: &'static str = "/tmp/livi/led.toml";
pub const TMPFS_HOSTAPD: &'static str = "/tmp/livi/hostapd.conf.saved";
pub const TMPFS_BT_KEYS: &'static str = "/tmp/livi/bt-keys";
pub const DEFAULT_LED: &'static str = "/etc/livi/led.toml";
pub const DEFAULT_HOSTAPD: &'static str = "/etc/hostapd.conf";

pub const ENTRY_LED: &'static str = "led.toml";
pub const ENTRY_HOSTAPD: &'static str = "hostapd.conf.saved";
pub const ENTRY_BT_KEYS: &'static str = "bt-keys";

/// One stored file.
pub struct Entry {
    pub name: String,
    pub data: Vec<u8>,
}

/// What an entry says: its name and its bytes.
pub open spec fn contents(entries: Seq<Entry>) -> Seq<(Seq<char>, Seq<u8>)> {
    Seq::new(entries.len(), |i: int| (entries[i].name@, entries[i].data@))
}

/// Why a blob is not read or not written.
pub enum BlobError {
    Truncated,
    Magic,
    Length(usize),
    Crc,
    Version(u16),
    Short,
    Count(usize),
    Table,
    NotUtf8,
    PastPayload(usize),
    BadCount(usize),
    TooLarge(usize),
    LongName(String),
}

impl BlobError {
    /// The failure in words.
    pub open spec fn words(self) -> Seq<char> {
        match self {
            BlobError::Truncated => "failed to fill whole buffer"@,
            BlobError::Magic => "magic mismatch"@,
            BlobError::Length(n) => "length "@ + dec(n as nat) + " out of range"@,
            BlobError::Crc => "crc mismatch"@,
            BlobError::Version(v) => "unknown version "@ + dec(v as nat),
            BlobError::Short => "v2 payload too short"@,
            BlobError::Count(n) => "v2 entry count "@ + dec(n as nat) + " out of range"@,
            BlobError::Table => "v2 table truncated"@,
            BlobError::NotUtf8 => "v2 non-utf8 name"@,
            BlobError::PastPayload(i) => "v2 entry "@ + dec(i as nat) + " extends past payload"@,
            BlobError::BadCount(n) => "bad entry count "@ + dec(n as nat),
            BlobError::TooLarge(n) => "payload "@ + dec(n as nat) + " exceeds cap "@ + dec(MAX_PAYLOAD as nat),
            BlobError::LongName(name) => "name too long: "@ + name@,
        }
    }

    /// The failure in words.
    pub fn text(&self) -> (out: String)
        ensures
            out@ == self.words(),
    {
        match self {
            BlobError::Truncated => "failed to fill whole buffer".to_owned(),
            BlobError::Magic => "magic mismatch".to_owned(),
            BlobError::Length(n) => numbered("length ", *n as u64, " out of range"),
            BlobError::Crc => "crc mismatch".to_owned(),
            BlobError::Version(v) => {
                let mut out = "unknown version ".to_owned();
                put_dec(&mut out, *v as u64);
                out
            },
            BlobError::Short => "v2 payload too short".to_owned(),
            BlobError::Count(n) => numbered("v2 entry count ", *n as u64, " out of range"),
            BlobError::Table => "v2 table truncated".to_owned(),
            BlobError::NotUtf8 => "v2 non-utf8 name".to_owned(),
            BlobError::PastPayload(i) => numbered("v2 entry ", *i as u64, " extends past payload"),
            BlobError::BadCount(n) => {
                let mut out = "bad entry count ".to_owned();
                put_dec(&mut out, *n as u64);
                out
            },
            BlobError::TooLarge(n) => {
                let mut out = numbered("payload ", *n as u64, " exceeds cap ");
                put_dec(&mut out, MAX_PAYLOAD as u64);
                out
            },
            BlobError::LongName(name) => {
                let mut out = "name too long: ".to_owned();
                out.append(name.as_str());
                out
            },
        }
    }
}

fn numbered(front: &str, n: u64, back: &str) -> (out: String)
    ensures
        out@ == front@ + dec(n as nat) + back@,
{
    let mut out = front.to_owned();
    put_dec(&mut out, n);
    out.append(back);
    out
}

/// How many bytes some entries hold together.
pub open spec fn data_len(e: Seq<(Seq<char>, Seq<u8>)>) -> nat
    decreases e.len(),
{
    if e.len() == 0 { 0 } else { data_len(e.drop_last()) + e.last().1.len() }
}

/// The length of the payload some entries take.
pub open spec fn payload_len(e: Seq<(Seq<char>, Seq<u8>)>) -> nat {
    4 + e.len() * V2_ENTRY_LEN as nat + data_len(e)
}

/// One row of the table: the name in 32 bytes, the length, four bytes in reserve.
pub open spec fn row(e: (Seq<char>, Seq<u8>)) -> Seq<u8> {
    encode_utf8(e.0) + zeros((32 - encode_utf8(e.0).len()) as nat) + le32(e.1.len() as u32) + zeros(4)
}

/// The rows one after the other.
pub open spec fn table(e: Seq<(Seq<char>, Seq<u8>)>) -> Seq<u8>
    decreases e.len(),
{
    if e.len() == 0 { Seq::empty() } else { table(e.drop_last()) + row(e.last()) }
}

/// The bytes of the entries one after the other.
pub open spec fn bodies(e: Seq<(Seq<char>, Seq<u8>)>) -> Seq<u8>
    decreases e.len(),
{
    if e.len() == 0 { Seq::empty() } else { bodies(e.drop_last()) + e.last().1 }
}

/// The payload: the count in four bytes, the table, the bodies.
pub open spec fn payload_of(e: Seq<(Seq<char>, Seq<u8>)>) -> Seq<u8> {
    seq![e.len() as u8, 0u8, 0u8, 0u8] + table(e) + bodies(e)
}

/// The whole blob: magic, version, reserve, length and checksum, then the payload.
pub open spec fn blob_of(e: Seq<(Seq<char>, Seq<u8>)>) -> Seq<u8> {
    MAGIC@ + le16(VERSION_V2) + le16(0) + le32(payload_of(e).len() as u32)
        + le32(checksum(payload_of(e))) + payload_of(e)
}

/// Whether every name fits its field.
pub open spec fn names_fit(e: Seq<(Seq<char>, Seq<u8>)>) -> bool {
    forall|i: int| 0 <= i < e.len() ==> encode_utf8(#[trigger] e[i].0).len() <= 32
}

/// Whether the entries can be written.
pub open spec fn packable(e: Seq<(Seq<char>, Seq<u8>)>) -> bool {
    1 <= e.len() <= 32 && payload_len(e) <= MAX_PAYLOAD && names_fit(e)
}

proof fn sizes(e: Seq<(Seq<char>, Seq<u8>)>)
    ensures
        bodies(e).len() == data_len(e),
        names_fit(e) ==> table(e).len() == e.len() * 40,
    decreases e.len(),
{
    if e.len() > 0 {
        sizes(e.drop_last());
        if names_fit(e) {
            assert forall|i: int| 0 <= i < e.drop_last().len() implies
                encode_utf8(#[trigger] e.drop_last()[i].0).len() <= 32 by {
                assert(e.drop_last()[i] == e[i]);
            }
            assert(encode_utf8(e[e.len() - 1].0).len() <= 32);
            assert(row(e.last()).len() == 40);
        }
    }
}

/// Adds the lengths of all entries up.
fn total(entries: &[Entry]) -> (n: usize)
    requires
        data_len(contents(entries@)) <= usize::MAX,
    ensures
        n == data_len(contents(entries@)),
{
    let ghost all = contents(entries@);
    let mut n: usize = 0;
    let mut i: usize = 0;
    while i < entries.len()
        invariant
            i <= entries@.len(),
            all == contents(entries@),
            n == data_len(all.take(i as int)),
            data_len(all) <= usize::MAX,
        decreases entries@.len() - i,
    {
        assert(all.take(i + 1).drop_last() =~= all.take(i as int));
        proof {
            len_grows(all, i + 1);
        }
        n += entries[i].data.len();
        i += 1;
    }
    assert(all.take(i as int) =~= all);
    n
}

proof fn len_grows(e: Seq<(Seq<char>, Seq<u8>)>, k: int)
    requires
        0 <= k <= e.len(),
    ensures
        data_len(e.take(k)) <= data_len(e),
    decreases e.len() - k,
{
    if k < e.len() {
        len_grows(e.drop_last(), k);
        assert(e.drop_last().take(k) =~= e.take(k));
    } else {
        assert(e.take(k) =~= e);
    }
}

/// Writes entries as a blob. Refused, in this order: no entries or more than 32, a payload over
/// the cap, a name over 32 bytes, the first one of which is reported.
pub fn pack_v2(entries: &[Entry]) -> (r: Result<Vec<u8>, BlobError>)
    requires
        payload_len(contents(entries@)) <= usize::MAX,
    ensures
        ({
            let e = contents(entries@);
            match r {
                Ok(blob) => packable(e) && blob@ == blob_of(e),
                Err(BlobError::BadCount(n)) => n == e.len() && (n == 0 || n > 32),
                Err(BlobError::TooLarge(n)) => 1 <= e.len() <= 32 && n == payload_len(e) && n > MAX_PAYLOAD,
                Err(BlobError::LongName(name)) => {
                    &&& 1 <= e.len() <= 32
                    &&& payload_len(e) <= MAX_PAYLOAD
                    &&& exists|i: int| #![trigger e[i]] {
                        &&& 0 <= i < e.len()
                        &&& name@ == e[i].0
                        &&& encode_utf8(e[i].0).len() > 32
                        &&& forall|j: int| 0 <= j < i ==> encode_utf8(#[trigger] e[j].0).len() <= 32
                    }
                },
                Err(_) => false,
            }
        }),
{
    let ghost e = contents(entries@);
    if entries.len() == 0 || entries.len() > 32 {
        return Err(BlobError::BadCount(entries.len()));
    }
    proof {
        sizes(e);
    }
    let payload_size: usize = 4 + entries.len() * V2_ENTRY_LEN + total(entries);
    if payload_size > MAX_PAYLOAD {
        return Err(BlobError::TooLarge(payload_size));
    }
    let mut payload: Vec<u8> = Vec::new();
    payload.push(entries.len() as u8);
    append_zeros(&mut payload, 3);
    let ghost head = seq![e.len() as u8, 0u8, 0u8, 0u8];
    assert(payload@ =~= head + table(e.take(0)));
    let mut i: usize = 0;
    while i < entries.len()
        invariant
            i <= entries@.len(),
            1 <= entries@.len() <= 32,
            e == contents(entries@),
            payload_len(e) <= MAX_PAYLOAD,
            payload@ == head + table(e.take(i as int)),
            forall|j: int| 0 <= j < i ==> encode_utf8(#[trigger] e[j].0).len() <= 32,
        decreases entries@.len() - i,
    {
        let name = entries[i].name.as_str().as_bytes();
        let ghost this = e[i as int];
        if name.len() > 32 {
            return Err(BlobError::LongName(entries[i].name.clone()));
        }
        let ghost start = payload@;
        append(&mut payload, name);
        append_zeros(&mut payload, 32 - name.len());
        put_le32(&mut payload, entries[i].data.len() as u32);
        append_zeros(&mut payload, 4);
        assert(payload@ =~= start + row(this));
        assert(e.take(i + 1).drop_last() =~= e.take(i as int));
        assert(payload@ =~= head + table(e.take(i + 1)));
        i += 1;
    }
    assert(e.take(i as int) =~= e);
    let ghost front = payload@;
    assert(payload@ =~= front + bodies(e.take(0)));
    let mut k: usize = 0;
    while k < entries.len()
        invariant
            k <= entries@.len(),
            e == contents(entries@),
            payload@ == front + bodies(e.take(k as int)),
        decreases entries@.len() - k,
    {
        append(&mut payload, &entries[k].data);
        assert(e.take(k + 1).drop_last() =~= e.take(k as int));
        assert(payload@ =~= front + bodies(e.take(k + 1)));
        k += 1;
    }
    assert(e.take(k as int) =~= e);
    assert(payload@ == payload_of(e));
    let crc: u32 = crc32(&payload);
    let mut blob: Vec<u8> = Vec::new();
    append(&mut blob, &MAGIC);
    assert(blob@ =~= MAGIC@);
    put_le16(&mut blob, VERSION_V2);
    put_le16(&mut blob, 0);
    put_le32(&mut blob, payload.len() as u32);
    put_le32(&mut blob, crc);
    append(&mut blob, &payload);
    Ok(blob)
}

/// The name in a row of the table.
pub open spec fn row_name(payload: Seq<u8>, i: int) -> Seq<u8> {
    until_zero(payload.subrange(4 + i * V2_ENTRY_LEN, 4 + i * V2_ENTRY_LEN + 32))
}

/// The length in a row of the table.
pub open spec fn row_len(payload: Seq<u8>, i: int) -> u32 {
    u32_le(payload, 4 + i * V2_ENTRY_LEN + 32)
}

/// The entries of the rows from `i` on, the first of them starting at `cursor`.
pub open spec fn rows_from(payload: Seq<u8>, count: int, i: int, cursor: int) -> Result<Seq<(Seq<char>, Seq<u8>)>, BlobError>
    decreases count - i,
{
    if i >= count {
        Ok(Seq::empty())
    } else if !valid_utf8(row_name(payload, i)) {
        Err(BlobError::NotUtf8)
    } else if cursor + row_len(payload, i) > payload.len() {
        Err(BlobError::PastPayload(i as usize))
    } else {
        match rows_from(payload, count, i + 1, cursor + row_len(payload, i)) {
            Ok(rest) => Ok(
                seq![(decode_utf8(row_name(payload, i)), payload.subrange(cursor, cursor + row_len(payload, i)))] + rest,
            ),
            Err(e) => Err(e),
        }
    }
}

/// What a payload of the second version holds.
pub open spec fn unpacked(payload: Seq<u8>) -> Result<Seq<(Seq<char>, Seq<u8>)>, BlobError> {
    if payload.len() < 4 {
        Err(BlobError::Short)
    } else if payload[0] == 0 || payload[0] > 32 {
        Err(BlobError::Count(payload[0] as usize))
    } else if payload.len() < 4 + payload[0] * V2_ENTRY_LEN {
        Err(BlobError::Table)
    } else {
        rows_from(payload, payload[0] as int, 0, 4 + payload[0] * V2_ENTRY_LEN)
    }
}

/// What a stored blob holds.
pub open spec fn stored(dev: Seq<u8>) -> Result<Seq<(Seq<char>, Seq<u8>)>, BlobError> {
    if dev.len() < HEADER_LEN {
        Err(BlobError::Truncated)
    } else if dev.subrange(0, 4) != MAGIC@ {
        Err(BlobError::Magic)
    } else if u32_le(dev, 8) == 0 || u32_le(dev, 8) > MAX_PAYLOAD {
        Err(BlobError::Length(u32_le(dev, 8) as usize))
    } else if dev.len() < HEADER_LEN + u32_le(dev, 8) {
        Err(BlobError::Truncated)
    } else {
        let payload = dev.subrange(HEADER_LEN as int, HEADER_LEN + u32_le(dev, 8));
        if checksum(payload) != u32_le(dev, 12) {
            Err(BlobError::Crc)
        } else if u16_le(dev, 4) == VERSION_V1 {
            Ok(seq![(ENTRY_LED@, payload)])
        } else if u16_le(dev, 4) == VERSION_V2 {
            unpacked(payload)
        } else {
            Err(BlobError::Version(u16_le(dev, 4)))
        }
    }
}

/// Whether a result is what was expected of it.
pub open spec fn reads(r: Result<Vec<Entry>, BlobError>, want: Result<Seq<(Seq<char>, Seq<u8>)>, BlobError>) -> bool {
    match (r, want) {
        (Ok(entries), Ok(e)) => contents(entries@) == e,
        (Err(a), Err(b)) => a == b,
        _ => false,
    }
}

/// Reads a payload of the second version.
pub fn unpack_v2(payload: &[u8]) -> (r: Result<Vec<Entry>, BlobError>)
    ensures
        reads(r, unpacked(payload@)),
{
    if payload.len() < 4 {
        return Err(BlobError::Short);
    }
    let count: usize = payload[0] as usize;
    if count == 0 || count > 32 {
        return Err(BlobError::Count(count));
    }
    let table_end: usize = 4 + count * V2_ENTRY_LEN;
    if payload.len() < table_end {
        return Err(BlobError::Table);
    }
    let mut entries: Vec<Entry> = Vec::new();
    let mut cursor: usize = table_end;
    let mut i: usize = 0;
    let ghost all = rows_from(payload@, count as int, 0, table_end as int);
    assert(all matches Ok(e) ==> contents(entries@) + e =~= e);
    while i < count
        invariant
            i <= count <= 32,
            table_end == 4 + count * V2_ENTRY_LEN,
            table_end <= payload@.len(),
            table_end <= cursor <= payload@.len(),
            all == rows_from(payload@, count as int, 0, table_end as int),
            all == unpacked(payload@),
            match rows_from(payload@, count as int, i as int, cursor as int) {
                Ok(rest) => all == Ok::<Seq<(Seq<char>, Seq<u8>)>, BlobError>(contents(entries@) + rest),
                Err(e) => all == Err::<Seq<(Seq<char>, Seq<u8>)>, BlobError>(e),
            },
        decreases count - i,
    {
        let off: usize = 4 + i * V2_ENTRY_LEN;
        let name_end: usize = zero_at(payload, off, off + 32);
        let field = copy_range(payload, off, name_end);
        assert(field@ == row_name(payload@, i as int));
        let name = match utf8(&field) {
            Some(name) => name,
            None => {
                return Err(BlobError::NotUtf8);
            },
        };
        proof {
            encode_utf8_decode_utf8(name@);
        }
        let len: usize = get_le32(payload, off + 32) as usize;
        if len > payload.len() - cursor {
            return Err(BlobError::PastPayload(i));
        }
        let data = copy_range(payload, cursor, cursor + len);
        let ghost before = contents(entries@);
        let ghost this = (name@, data@);
        entries.push(Entry { name, data });
        assert(contents(entries@) =~= before.push(this));
        proof {
            match rows_from(payload@, count as int, i + 1, cursor + len) {
                Ok(rest) => {
                    assert(before + (seq![this] + rest) =~= contents(entries@) + rest);
                },
                Err(_) => {},
            }
        }
        cursor += len;
        i += 1;
    }
    assert(contents(entries@) + Seq::<(Seq<char>, Seq<u8>)>::empty() =~= contents(entries@));
    Ok(entries)
}

/// Reads what the flash holds: a checked header, then the payload of either version.
pub fn read_blob(dev: &[u8]) -> (r: Result<Vec<Entry>, BlobError>)
    ensures
        reads(r, stored(dev@)),
{
    if dev.len() < HEADER_LEN {
        return Err(BlobError::Truncated);
    }
    let magic = copy_range(dev, 0, 4);
    if !same(&magic, &MAGIC) {
        return Err(BlobError::Magic);
    }
    let version: u16 = get_le16(dev, 4);
    let length: usize = get_le32(dev, 8) as usize;
    let crc: u32 = get_le32(dev, 12);
    if length == 0 || length > MAX_PAYLOAD {
        return Err(BlobError::Length(length));
    }
    if dev.len() < HEADER_LEN + length {
        return Err(BlobError::Truncated);
    }
    let payload = copy_range(dev, HEADER_LEN, HEADER_LEN + length);
    if crc32(&payload) != crc {
        return Err(BlobError::Crc);
    }
    if version == VERSION_V1 {
        let mut entries: Vec<Entry> = Vec::new();
        let ghost data = payload@;
        entries.push(Entry { name: ENTRY_LED.to_owned(), data: payload });
        assert(contents(entries@) =~= seq![(ENTRY_LED@, data)]);
        Ok(entries)
    } else if version == VERSION_V2 {
        unpack_v2(&payload)
    } else {
        Err(BlobError::Version(version))
    }
}

/// The rows stand in the table one after the other.
proof fn table_row(e: Seq<(Seq<char>, Seq<u8>)>, i: int)
    requires
        0 <= i < e.len(),
        names_fit(e),
    ensures
        table(e).len() == e.len() * 40,
        table(e).subrange(i * 40, i * 40 + 40) == row(e[i]),
    decreases e.len(),
{
    sizes(e);
    let front = e.drop_last();
    assert forall|j: int| 0 <= j < front.len() implies encode_utf8(#[trigger] front[j].0).len() <= 32 by {
        assert(front[j] == e[j]);
    }
    sizes(front);
    assert(encode_utf8(e[e.len() - 1].0).len() <= 32);
    assert(row(e.last()).len() == 40);
    if i == e.len() - 1 {
        assert(table(e).subrange(i * 40, i * 40 + 40) =~= row(e.last()));
    } else {
        table_row(front, i);
        assert(front[i] == e[i]);
        assert(table(e).subrange(i * 40, i * 40 + 40) =~= table(front).subrange(i * 40, i * 40 + 40));
    }
}

/// Each body starts where the ones in front of it end.
proof fn body_at(e: Seq<(Seq<char>, Seq<u8>)>, i: int)
    requires
        0 <= i < e.len(),
    ensures
        bodies(e).len() == data_len(e),
        data_len(e.take(i)) + e[i].1.len() == data_len(e.take(i + 1)),
        data_len(e.take(i + 1)) <= data_len(e),
        bodies(e).subrange(data_len(e.take(i)) as int, data_len(e.take(i + 1)) as int) == e[i].1,
    decreases e.len(),
{
    sizes(e);
    let front = e.drop_last();
    sizes(front);
    assert(e.take(i + 1).drop_last() =~= e.take(i));
    if i == e.len() - 1 {
        assert(e.take(i + 1) =~= e);
        assert(e.take(i) =~= front);
        assert(bodies(e).subrange(data_len(front) as int, data_len(e) as int) =~= e.last().1);
    } else {
        body_at(front, i);
        assert(front.take(i) =~= e.take(i));
        assert(front.take(i + 1) =~= e.take(i + 1));
        assert(bodies(e).subrange(data_len(e.take(i)) as int, data_len(e.take(i + 1)) as int)
            =~= bodies(front).subrange(data_len(e.take(i)) as int, data_len(e.take(i + 1)) as int));
    }
}

/// A name behind which the field is filled with zeros ends where the zeros start.
proof fn name_ends(name: Seq<u8>, n: nat)
    requires
        forall|i: int| 0 <= i < name.len() ==> name[i] != 0,
    ensures
        until_zero(name + zeros(n)) == name,
    decreases name.len(),
{
    let all = name + zeros(n);
    if name.len() == 0 {
        if n > 0 {
            assert(all[0] == 0);
        }
        assert(until_zero(all) =~= name);
    } else {
        assert(all[0] == name[0]);
        assert(all.skip(1) =~= name.skip(1) + zeros(n));
        name_ends(name.skip(1), n);
        assert(until_zero(all) =~= name);
    }
}

/// Whether no name holds a zero, which would end it early.
pub open spec fn names_plain(e: Seq<(Seq<char>, Seq<u8>)>) -> bool {
    forall|i: int, j: int| 0 <= i < e.len() && 0 <= j < encode_utf8(e[i].0).len() ==>
        #[trigger] encode_utf8(e[i].0)[j] != 0
}

/// One row of a written payload reads back as the entry it was written for.
proof fn row_reads(e: Seq<(Seq<char>, Seq<u8>)>, i: int)
    requires
        packable(e),
        names_plain(e),
        0 <= i < e.len(),
    ensures
        ({
            let p = payload_of(e);
            let cursor = (4 + e.len() * 40 + data_len(e.take(i))) as int;
            &&& p.len() == payload_len(e)
            &&& row_name(p, i) == encode_utf8(e[i].0)
            &&& row_len(p, i) == e[i].1.len()
            &&& cursor + e[i].1.len() <= p.len()
            &&& p.subrange(cursor, cursor + e[i].1.len()) == e[i].1
        }),
{
    let p = payload_of(e);
    let name = encode_utf8(e[i].0);
    let r = row(e[i]);
    sizes(e);
    table_row(e, i);
    body_at(e, i);
    assert(encode_utf8(e[i].0).len() <= 32);
    assert(e[i].1.len() <= MAX_PAYLOAD);
    let off = 4 + i * 40;
    assert(p.subrange(off, off + 40) =~= table(e).subrange(i * 40, i * 40 + 40));
    assert(p.subrange(off, off + 32) =~= r.subrange(0, 32));
    assert(r.subrange(0, 32) =~= name + zeros((32 - name.len()) as nat));
    name_ends(name, (32 - name.len()) as nat);
    assert(p.subrange(off + 32, off + 36) =~= r.subrange(32, 36));
    assert(r.subrange(32, 36) =~= le32(e[i].1.len() as u32));
    integers_read_back(p, off + 32, 0, e[i].1.len() as u32);
    let cursor = (4 + e.len() * 40 + data_len(e.take(i))) as int;
    assert(p.subrange(cursor, cursor + e[i].1.len())
        =~= bodies(e).subrange(data_len(e.take(i)) as int, data_len(e.take(i + 1)) as int));
}

proof fn rows_read(e: Seq<(Seq<char>, Seq<u8>)>, i: int)
    requires
        packable(e),
        names_plain(e),
        0 <= i <= e.len(),
    ensures
        rows_from(payload_of(e), e.len() as int, i, (4 + e.len() * 40 + data_len(e.take(i))) as int)
            == Ok::<Seq<(Seq<char>, Seq<u8>)>, BlobError>(e.skip(i)),
    decreases e.len() - i,
{
    if i < e.len() {
        row_reads(e, i);
        rows_read(e, i + 1);
        body_at(e, i);
        encode_utf8_valid_utf8(e[i].0);
        encode_utf8_decode_utf8(e[i].0);
        assert(seq![e[i]] + e.skip(i + 1) =~= e.skip(i));
    } else {
        assert(e.skip(i) =~= Seq::<(Seq<char>, Seq<u8>)>::empty());
    }
}

/// What was packed is read back, entry for entry, as long as no name holds a zero.
pub proof fn a_blob_reads_back(e: Seq<(Seq<char>, Seq<u8>)>)
    requires
        packable(e),
        names_plain(e),
    ensures
        stored(blob_of(e)) == Ok::<Seq<(Seq<char>, Seq<u8>)>, BlobError>(e),
{
    let p = payload_of(e);
    let b = blob_of(e);
    sizes(e);
    assert(p.len() == payload_len(e));
    assert(b.subrange(0, 4) =~= MAGIC@);
    assert(b.subrange(4, 6) =~= le16(VERSION_V2));
    assert(b.subrange(8, 12) =~= le32(p.len() as u32));
    assert(b.subrange(12, 16) =~= le32(checksum(p)));
    assert(b.subrange(16, (16 + p.len()) as int) =~= p);
    integers_read_back(b, 4, VERSION_V2, 0);
    integers_read_back(b, 8, 0, p.len() as u32);
    integers_read_back(b, 12, 0, checksum(p));
    assert(p[0] == e.len() as u8);
    rows_read(e, 0);
    assert(e.take(0) =~= Seq::<(Seq<char>, Seq<u8>)>::empty());
    assert(e.skip(0) =~= e);
}

/// A payload that does not match its checksum is refused.
pub proof fn a_changed_payload_is_refused(dev: Seq<u8>)
    requires
        dev.len() >= HEADER_LEN,
        dev.subrange(0, 4) == MAGIC@,
        0 < u32_le(dev, 8) <= MAX_PAYLOAD,
        dev.len() >= HEADER_LEN + u32_le(dev, 8),
        checksum(dev.subrange(HEADER_LEN as int, HEADER_LEN + u32_le(dev, 8))) != u32_le(dev, 12),
    ensures
        stored(dev) == Err::<Seq<(Seq<char>, Seq<u8>)>, BlobError>(BlobError::Crc),
{
}

/// The file an entry is restored to. Other names have none.
pub open spec fn target_of(name: Seq<char>) -> Option<Seq<char>> {
    if name == ENTRY_LED@ {
        Some(TMPFS_LED@)
    } else if name == ENTRY_HOSTAPD@ {
        Some(TMPFS_HOSTAPD@)
    } else if name == ENTRY_BT_KEYS@ {
        Some(TMPFS_BT_KEYS@)
    } else {
        None
    }
}

/// The file an entry is restored to.
pub fn target(name: &str) -> (r: Option<&'static str>)
    ensures
        match r {
            Some(path) => target_of(name@) == Some(path@),
            None => target_of(name@) is None,
        },
{
    if same_text(name, ENTRY_LED) {
        Some(TMPFS_LED)
    } else if same_text(name, ENTRY_HOSTAPD) {
        Some(TMPFS_HOSTAPD)
    } else if same_text(name, ENTRY_BT_KEYS) {
        Some(TMPFS_BT_KEYS)
    } else {
        None
    }
}

/// The files to write for some entries, in order, the unknown ones passed over.
pub open spec fn restored(e: Seq<(Seq<char>, Seq<u8>)>) -> Seq<(Seq<char>, Seq<u8>)>
    decreases e.len(),
{
    if e.len() == 0 {
        Seq::empty()
    } else {
        match target_of(e.last().0) {
            Some(path) => restored(e.drop_last()).push((path, e.last().1)),
            None => restored(e.drop_last()),
        }
    }
}

/// The files to write when a blob is loaded, each named by its path.
pub fn restore_plan(entries: &[Entry]) -> (files: Vec<Entry>)
    ensures
        contents(files@) == restored(contents(entries@)),
{
    let ghost e = contents(entries@);
    let mut files: Vec<Entry> = Vec::new();
    let mut i: usize = 0;
    assert(contents(files@) =~= restored(e.take(0)));
    while i < entries.len()
        invariant
            i <= entries@.len(),
            e == contents(entries@),
            contents(files@) == restored(e.take(i as int)),
        decreases entries@.len() - i,
    {
        assert(e.take(i + 1).drop_last() =~= e.take(i as int));
        let ghost before = contents(files@);
        if let Some(path) = target(entries[i].name.as_str()) {
            files.push(Entry { name: path.to_owned(), data: copy(&entries[i].data) });
            assert(contents(files@) =~= before.push((path@, entries@[i as int].data@)));
        }
        i += 1;
    }
    assert(e.take(i as int) =~= e);
    files
}

/// Whether a file is worth keeping: there, not empty and not over the size of an entry.
pub open spec fn kept(file: Option<Vec<u8>>) -> bool {
    file matches Some(data) && 0 < data@.len() <= MAX_ENTRY
}

/// The entry a file makes, where it is worth keeping.
pub open spec fn kept_as(name: Seq<char>, file: Option<Vec<u8>>) -> Seq<(Seq<char>, Seq<u8>)> {
    if kept(file) { seq![(name, file->0@)] } else { Seq::empty() }
}

fn keep(entries: &mut Vec<Entry>, name: &str, file: Option<Vec<u8>>)
    ensures
        contents(final(entries)@) == contents(old(entries)@) + kept_as(name@, file),
{
    let ghost before = contents(entries@);
    match file {
        Some(data) => {
            if data.len() > 0 && data.len() <= MAX_ENTRY {
                let ghost d = data@;
                entries.push(Entry { name: name.to_owned(), data });
                assert(contents(entries@) =~= before + seq![(name@, d)]);
            } else {
                assert(contents(entries@) =~= before + Seq::<(Seq<char>, Seq<u8>)>::empty());
            }
        },
        None => {
            assert(contents(entries@) =~= before + Seq::<(Seq<char>, Seq<u8>)>::empty());
        },
    }
}

/// The entries to save: the light settings, the access point and the bonds, as far as their
/// files are worth keeping.
pub fn to_save(led: Option<Vec<u8>>, hostapd: Option<Vec<u8>>, bt_keys: Option<Vec<u8>>) -> (entries: Vec<Entry>)
    ensures
        contents(entries@) == kept_as(ENTRY_LED@, led) + kept_as(ENTRY_HOSTAPD@, hostapd)
            + kept_as(ENTRY_BT_KEYS@, bt_keys),
{
    let mut entries: Vec<Entry> = Vec::new();
    keep(&mut entries, ENTRY_LED, led);
    keep(&mut entries, ENTRY_HOSTAPD, hostapd);
    keep(&mut entries, ENTRY_BT_KEYS, bt_keys);
    assert(contents(entries@) =~= kept_as(ENTRY_LED@, led) + kept_as(ENTRY_HOSTAPD@, hostapd)
        + kept_as(ENTRY_BT_KEYS@, bt_keys));
    entries
}

proof fn len_of_sum(a: Seq<(Seq<char>, Seq<u8>)>, b: Seq<(Seq<char>, Seq<u8>)>)
    ensures
        data_len(a + b) == data_len(a) + data_len(b),
    decreases b.len(),
{
    if b.len() == 0 {
        assert(a + b =~= a);
    } else {
        assert((a + b).drop_last() =~= a + b.drop_last());
        len_of_sum(a, b.drop_last());
    }
}

proof fn one_len(x: Seq<(Seq<char>, Seq<u8>)>)
    requires
        x.len() <= 1,
    ensures
        data_len(x) == (if x.len() == 0 { 0 } else { x[0].1.len() }),
{
    if x.len() == 1 {
        assert(data_len(x.drop_last()) == 0);
    }
}

/// The names that are saved are short and plain.
proof fn names_known()
    ensures
        forall|n: Seq<char>| n == ENTRY_LED@ || n == ENTRY_HOSTAPD@ || n == ENTRY_BT_KEYS@ ==> {
            &&& #[trigger] encode_utf8(n).len() <= 32
            &&& forall|j: int| 0 <= j < encode_utf8(n).len() ==> encode_utf8(n)[j] != 0
        },
{
    reveal_strlit("led.toml");
    reveal_strlit("hostapd.conf.saved");
    reveal_strlit("bt-keys");
    is_ascii_chars_encode_utf8(ENTRY_LED@);
    is_ascii_chars_encode_utf8(ENTRY_HOSTAPD@);
    is_ascii_chars_encode_utf8(ENTRY_BT_KEYS@);
}

/// Whatever is saved can be packed, and loading the blob restores exactly the files that were
/// worth keeping.
pub proof fn what_is_saved_is_restored(led: Option<Vec<u8>>, hostapd: Option<Vec<u8>>, bt_keys: Option<Vec<u8>>)
    requires
        kept(led) || kept(hostapd) || kept(bt_keys),
    ensures
        ({
            let e = kept_as(ENTRY_LED@, led) + kept_as(ENTRY_HOSTAPD@, hostapd) + kept_as(ENTRY_BT_KEYS@, bt_keys);
            &&& packable(e)
            &&& stored(blob_of(e)) == Ok::<Seq<(Seq<char>, Seq<u8>)>, BlobError>(e)
            &&& restored(e) == kept_as(TMPFS_LED@, led) + kept_as(TMPFS_HOSTAPD@, hostapd)
                + kept_as(TMPFS_BT_KEYS@, bt_keys)
        }),
{
    let (a, b, c) = (kept_as(ENTRY_LED@, led), kept_as(ENTRY_HOSTAPD@, hostapd), kept_as(ENTRY_BT_KEYS@, bt_keys));
    let e = a + b + c;
    one_len(a);
    one_len(b);
    one_len(c);
    len_of_sum(a, b);
    len_of_sum(a + b, c);
    names_known();
    a_blob_reads_back(e);
    assert(restored(e) == kept_as(TMPFS_LED@, led) + kept_as(TMPFS_HOSTAPD@, hostapd)
        + kept_as(TMPFS_BT_KEYS@, bt_keys)) by {
        reveal_strlit("led.toml");
        reveal_strlit("hostapd.conf.saved");
        reveal_strlit("bt-keys");
        assert(ENTRY_LED@.len() == 8 && ENTRY_HOSTAPD@.len() == 18 && ENTRY_BT_KEYS@.len() == 7);
        assert(ENTRY_LED@ != ENTRY_HOSTAPD@ && ENTRY_LED@ != ENTRY_BT_KEYS@ && ENTRY_HOSTAPD@ != ENTRY_BT_KEYS@);
        assert(target_of(ENTRY_LED@) == Some(TMPFS_LED@));
        assert(target_of(ENTRY_HOSTAPD@) == Some(TMPFS_HOSTAPD@));
        assert(target_of(ENTRY_BT_KEYS@) == Some(TMPFS_BT_KEYS@));
        restored_sum(a, b);
        restored_sum(a + b, c);
        restored_one(ENTRY_LED@, TMPFS_LED@, led);
        restored_one(ENTRY_HOSTAPD@, TMPFS_HOSTAPD@, hostapd);
        restored_one(ENTRY_BT_KEYS@, TMPFS_BT_KEYS@, bt_keys);
    }
}

proof fn restored_one(name: Seq<char>, path: Seq<char>, file: Option<Vec<u8>>)
    requires
        target_of(name) == Some(path),
    ensures
        restored(kept_as(name, file)) == kept_as(path, file),
{
    let x = kept_as(name, file);
    if x.len() == 1 {
        assert(restored(x.drop_last()) =~= Seq::<(Seq<char>, Seq<u8>)>::empty());
    }
    assert(restored(x) =~= kept_as(path, file));
}

proof fn restored_sum(a: Seq<(Seq<char>, Seq<u8>)>, b: Seq<(Seq<char>, Seq<u8>)>)
    ensures
        restored(a + b) == restored(a) + restored(b),
    decreases b.len(),
{
    if b.len() == 0 {
        assert(a + b =~= a);
        assert(restored(a) + restored(b) =~= restored(a));
    } else {
        assert((a + b).drop_last() =~= a + b.drop_last());
        restored_sum(a, b.drop_last());
        assert(restored(a + b) =~= restored(a) + restored(b));
    }
}

/// How a save ended, by what was read back.
pub fn save_outcome(back: &Result<Vec<Entry>, BlobError>, entries: &[Entry]) -> (code: i32)
    ensures
        code == (if (back matches Ok(b) && contents(b@) == contents(entries@)) { 0i32 } else { 2i32 }),
{
    match back {
        Ok(b) => if same_entries(b, entries) { 0 } else { 2 },
        Err(_) => 2,
    }
}

fn same_entries(a: &[Entry], b: &[Entry]) -> (r: bool)
    ensures
        r == (contents(a@) == contents(b@)),
{
    let ghost x = contents(a@);
    let ghost y = contents(b@);
    if a.len() != b.len() {
        assert(x.len() != y.len());
        return false;
    }
    let mut i: usize = 0;
    while i < a.len()
        invariant
            i <= a@.len(),
            a@.len() == b@.len(),
            x == contents(a@),
            y == contents(b@),
            forall|j: int| 0 <= j < i ==> x[j] == y[j],
        decreases a@.len() - i,
    {
        if !same_text(a[i].name.as_str(), b[i].name.as_str()) || !same(&a[i].data, &b[i].data) {
            assert(x[i as int] != y[i as int]);
            return false;
        }
        assert(x[i as int] == y[i as int]);
        i += 1;
    }
    assert(x =~= y);
    true
}

/// Whether a line sets a key: it is no comment, and the key stands in front of its equals sign.
pub open spec fn sets(line: Seq<char>, key: Seq<char>) -> bool {
    let l = trim(line);
    let at = first(l, '=') as int;
    !starts_with(l, "#"@) && at < l.len() && trim(l.take(at)) == key
}

/// Whether some line of a text sets a key.
pub open spec fn has_setting(text: Seq<char>, key: Seq<char>) -> bool {
    exists|i: int| 0 <= i < lines(text).len() && sets(#[trigger] lines(text)[i], key)
}

/// A text with one more setting at its end, on a line of its own.
pub open spec fn with_line(text: Seq<char>, key: Seq<char>, value: Seq<char>) -> Seq<char> {
    text + (if text.len() > 0 && text.last() == '\n' { Seq::<char>::empty() } else { seq!['\n'] })
        + key + "="@ + value + "\n"@
}

fn line_sets(line: &str, key: &str) -> (r: bool)
    ensures
        r == sets(line@, key@),
{
    let l = trimmed(line);
    if begins(l.as_str(), "#") {
        return false;
    }
    match find_char(l.as_str(), '=') {
        Some(at) => {
            let k = trimmed(l.as_str().substring_char(0, at));
            assert(l@.subrange(0, at as int) =~= l@.take(at as int));
            same_text(k.as_str(), key)
        },
        None => false,
    }
}

/// The text to write so that a key is set, or nothing where a line sets it already.
pub fn ensure_setting(text: &str, key: &str, value: &str) -> (r: Option<String>)
    ensures
        match r {
            Some(out) => !has_setting(text@, key@) && out@ == with_line(text@, key@, value@),
            None => has_setting(text@, key@),
        },
{
    let all = lines_of(text);
    let ghost ls = lines(text@);
    let mut i: usize = 0;
    while i < all.len()
        invariant
            i <= all@.len(),
            ls == lines(text@),
            views(all@) == ls,
            forall|j: int| 0 <= j < i ==> !sets(#[trigger] ls[j], key@),
        decreases all@.len() - i,
    {
        assert(views(all@)[i as int] == all@[i as int]@);
        if line_sets(all[i].as_str(), key) {
            return None;
        }
        i += 1;
    }
    assert(ls.len() == all@.len());
    let mut out = text.to_owned();
    let n: usize = text.unicode_len();
    if n == 0 || text.get_char(n - 1) != '\n' {
        out.push('\n');
        assert(out@ =~= text@ + seq!['\n']);
    } else {
        assert(out@ =~= text@ + Seq::<char>::empty());
    }
    out.append(key);
    out.append("=");
    out.append(value);
    out.append("\n");
    Some(out)
}

/// What the command line asks for.
#[derive(Clone, Copy, PartialEq, Eq, Structural)]
pub enum ConfigCommand {
    Load,
    Save,
    Usage,
}

/// Reads the command line: the first argument names the command.
pub fn config_command(args: &[String]) -> (c: ConfigCommand)
    ensures
        c == (if args@.len() > 0 && args@[0]@ == "load"@ {
            ConfigCommand::Load
        } else if args@.len() > 0 && args@[0]@ == "save"@ {
            ConfigCommand::Save
        } else {
            ConfigCommand::Usage
        }),
{
    if args.len() == 0 {
        return ConfigCommand::Usage;
    }
    if same_text(args[0].as_str(), "load") {
        ConfigCommand::Load
    } else if same_text(args[0].as_str(), "save") {
        ConfigCommand::Save
    } else {
        ConfigCommand::Usage
    }
}

/// A blob begins with its magic, its version, two bytes in reserve, the length of the payload and the
/// checksum over it. The payload begins with how many entries there are.
pub proof fn a_blob_is_laid_out(e: Seq<(Seq<char>, Seq<u8>)>)
    requires
        packable(e),
    ensures
        ({
            let b = blob_of(e);
            let p = b.skip(16);
            &&& b.subrange(0, 8) == seq![0x4cu8, 0x56u8, 0x43u8, 0x46u8, 2u8, 0u8, 0u8, 0u8]
            &&& u32_le(b, 8) == p.len()
            &&& u32_le(b, 12) == checksum(p)
            &&& p == payload_of(e)
            &&& p.len() == 4 + 40 * e.len() + data_len(e)
            &&& p.subrange(0, 4) == seq![e.len() as u8, 0u8, 0u8, 0u8]
        }),
{
    let q = payload_of(e);
    let b = blob_of(e);
    sizes(e);
    assert(q.len() == 4 + 40 * e.len() + data_len(e));
    headed(q);
    assert(q.subrange(0, 4) =~= seq![e.len() as u8, 0u8, 0u8, 0u8]);
}

proof fn headed(q: Seq<u8>)
    requires
        q.len() <= 0xffff_ffff,
    ensures
        ({
            let b = MAGIC@ + le16(VERSION_V2) + le16(0) + le32(q.len() as u32) + le32(checksum(q)) + q;
            &&& b.subrange(0, 8) == seq![0x4cu8, 0x56u8, 0x43u8, 0x46u8, 2u8, 0u8, 0u8, 0u8]
            &&& u32_le(b, 8) == q.len()
            &&& u32_le(b, 12) == checksum(q)
            &&& b.skip(16) == q
        }),
{
    let b = MAGIC@ + le16(VERSION_V2) + le16(0) + le32(q.len() as u32) + le32(checksum(q)) + q;
    assert(b.subrange(0, 8) =~= seq![0x4cu8, 0x56u8, 0x43u8, 0x46u8, 2u8, 0u8, 0u8, 0u8]);
    assert(b.subrange(8, 12) =~= le32(q.len() as u32));
    assert(b.subrange(12, 16) =~= le32(checksum(q)));
    integers_read_back(b, 8, 0, q.len() as u32);
    integers_read_back(b, 12, 0, checksum(q));
    assert(b.skip(16) =~= q);
}

/// Each entry has a row of forty bytes: its name, filled up with zeros to thirty-two, its length and
/// four zeros. Its bytes stand behind the table and behind those of the entries in front of it.
pub proof fn an_entry_has_its_row(e: Seq<(Seq<char>, Seq<u8>)>, i: int)
    requires
        packable(e),
        0 <= i < e.len(),
    ensures
        ({
            let p = payload_of(e);
            let at = 4 + 40 * i;
            let name = encode_utf8(e[i].0);
            let start = (4 + 40 * e.len() + data_len(e.take(i))) as int;
            &&& p.subrange(at, at + name.len() as int) == name
            &&& forall|k: int| at + name.len() <= k < at + 32 ==> #[trigger] p[k] == 0
            &&& u32_le(p, at + 32) == e[i].1.len()
            &&& forall|k: int| at + 36 <= k < at + 40 ==> #[trigger] p[k] == 0
            &&& p.subrange(start, start + e[i].1.len() as int) == e[i].1
        }),
{
    let p = payload_of(e);
    let at = 4 + 40 * i;
    let name = encode_utf8(e[i].0);
    let len = e[i].1.len() as u32;
    sizes(e);
    table_row(e, i);
    body_at(e, i);
    let start = (4 + 40 * e.len() + data_len(e.take(i))) as int;
    let t = table(e);
    let w = row(e[i]);
    assert(e[i].1.len() <= MAX_PAYLOAD);
    assert(w.len() == 40);
    assert(p.subrange(at, at + 40) =~= t.subrange(i * 40, i * 40 + 40));
    assert forall|k: int| 0 <= k < 40 implies p[at + k] == #[trigger] w[k] by {
        assert(p.subrange(at, at + 40)[k] == p[at + k]);
    }
    assert(w.subrange(0, name.len() as int) =~= name);
    assert(p.subrange(at, at + name.len() as int) =~= name) by {
        assert forall|k: int| 0 <= k < name.len() implies p[at + k] == #[trigger] name[k] by {
            assert(w[k] == name[k]);
        }
    }
    assert forall|k: int| at + name.len() <= k < at + 32 implies #[trigger] p[k] == 0 by {
        assert(w[k - at] == 0);
    }
    assert forall|k: int| at + 36 <= k < at + 40 implies #[trigger] p[k] == 0 by {
        assert(w[k - at] == 0);
    }
    assert(p.subrange(at + 32, at + 36) =~= le32(len)) by {
        assert forall|k: int| 0 <= k < 4 implies p[at + 32 + k] == #[trigger] le32(len)[k] by {
            assert(w[32 + k] == le32(len)[k]);
        }
    }
    integers_read_back(p, at + 32, 0, len);
    assert(p.subrange(start, start + e[i].1.len() as int)
        =~= bodies(e).subrange(data_len(e.take(i)) as int, data_len(e.take(i + 1)) as int));
}

/// A blob of the first version is the light settings as they stand behind its header, and whatever
/// follows the payload makes no difference. Any other version is named.
pub proof fn a_blob_of_another_version(version: u16, reserve: u16, payload: Seq<u8>, more: Seq<u8>)
    requires
        0 < payload.len() <= 32768,
        version != 2,
    ensures
        ({
            let b = seq![0x4cu8, 0x56u8, 0x43u8, 0x46u8] + le16(version) + le16(reserve) + le32(payload.len() as u32)
                + le32(checksum(payload)) + payload + more;
            stored(b) == (if version == 1 {
                Ok::<Seq<(Seq<char>, Seq<u8>)>, BlobError>(seq![("led.toml"@, payload)])
            } else {
                Err::<Seq<(Seq<char>, Seq<u8>)>, BlobError>(BlobError::Version(version))
            })
        }),
{
    let n = payload.len() as u32;
    let b = seq![0x4cu8, 0x56u8, 0x43u8, 0x46u8] + le16(version) + le16(reserve) + le32(n) + le32(checksum(payload))
        + payload + more;
    assert(b.subrange(0, 4) =~= MAGIC@);
    assert(b.subrange(4, 6) =~= le16(version));
    assert(b.subrange(8, 12) =~= le32(n));
    assert(b.subrange(12, 16) =~= le32(checksum(payload)));
    integers_read_back(b, 4, version, 0);
    integers_read_back(b, 8, 0, n);
    integers_read_back(b, 12, 0, checksum(payload));
    assert(b.subrange(16, 16 + payload.len() as int) =~= payload);
}

/// Each of the three entries goes back to its own file, and no other name goes anywhere. Entries are
/// restored one by one, whatever stands beside them.
pub proof fn where_entries_go(name: Seq<char>, a: Seq<(Seq<char>, Seq<u8>)>, data: Seq<u8>, b: Seq<(Seq<char>, Seq<u8>)>)
    ensures
        name == "led.toml"@ ==> target_of(name) == Some("/tmp/livi/led.toml"@),
        name == "hostapd.conf.saved"@ ==> target_of(name) == Some("/tmp/livi/hostapd.conf.saved"@),
        name == "bt-keys"@ ==> target_of(name) == Some("/tmp/livi/bt-keys"@),
        name != "led.toml"@ && name != "hostapd.conf.saved"@ && name != "bt-keys"@ ==> target_of(name) is None,
        restored(a + seq![(name, data)] + b) == restored(a) + (match target_of(name) {
            Some(path) => seq![(path, data)],
            None => Seq::empty(),
        }) + restored(b),
{
    reveal_strlit("led.toml");
    reveal_strlit("hostapd.conf.saved");
    reveal_strlit("bt-keys");
    assert("led.toml"@.len() == 8 && "hostapd.conf.saved"@.len() == 18 && "bt-keys"@.len() == 7);
    let one = seq![(name, data)];
    restored_sum(a + one, b);
    restored_sum(a, one);
    assert(one.drop_last() =~= Seq::<(Seq<char>, Seq<u8>)>::empty());
    assert(restored(one.drop_last()).len() == 0);
    assert(restored(one) =~= (match target_of(name) {
        Some(path) => seq![(path, data)],
        None => Seq::empty(),
    }));
}

/// A line that is written for a setting sets its key and no other, and a comment sets none. A key holds
/// neither an equals sign nor white space around it, and begins no comment.
pub proof fn a_written_line_sets_its_key(key: Seq<char>, value: Seq<char>, other: Seq<char>)
    requires
        key.len() > 0,
        !key.contains('='),
        key[0] != '#',
        !crate::text::is_space(key[0]),
        !crate::text::is_space(key.last()),
    ensures
        sets(key + seq!['='] + value, other) <==> other == key,
        !sets(seq!['#'] + value, other),
{
    let line = key + seq!['='] + value;
    let l = trim(line);
    let n = key.len() as int;
    crate::text::trimming_takes_white_space_alone(line);
    let (i, j) = choose|i: int, j: int| 0 <= i <= j <= line.len() && trim(line) == #[trigger] line.subrange(i, j)
        && (forall|k: int| 0 <= k < i || j <= k < line.len() ==> crate::text::is_space(#[trigger] line[k]));
    assert(line[0] == key[0]);
    assert(i == 0);
    assert(line[n] == '=');
    assert(!crate::text::is_space('='));
    assert(j > n);
    assert(l == line.subrange(0, j));
    assert forall|k: int| 0 <= k < n implies l[k] != '=' by {
        assert(l[k] == key[k]);
        assert(key.contains(key[k]));
    }
    assert(l[n] == '=');
    crate::text::first_at(l, '=', n);
    assert(l.take(n) =~= key);
    crate::text::untouched(key);
    reveal_strlit("#");
    assert(l.take(1)[0] == key[0]);
    let c = seq!['#'] + value;
    let m = trim(c);
    crate::text::trimming_takes_white_space_alone(c);
    let (a, b) = choose|i: int, j: int| 0 <= i <= j <= c.len() && trim(c) == #[trigger] c.subrange(i, j)
        && (forall|k: int| 0 <= k < i || j <= k < c.len() ==> crate::text::is_space(#[trigger] c[k]));
    assert(c[0] == '#');
    assert(!crate::text::is_space('#'));
    assert(a == 0 && b > 0);
    assert(m.take(1) =~= "#"@);
}

/// A setting that is added leaves the text in front of it as it was and stands on a line of its own.
pub proof fn an_added_setting_stands_on_its_own_line(text: Seq<char>, key: Seq<char>, value: Seq<char>)
    ensures
        ({
            let broken = text.len() > 0 && text.last() == '\n';
            let front = if broken { text } else { text + seq!['\n'] };
            with_line(text, key, value) == front + (key + seq!['='] + value) + seq!['\n']
        }),
        !(key + seq!['='] + value).contains('\n') && !((key + seq!['='] + value).last() == '\r')
            && text.len() > 0 && text.last() == '\n' ==> lines(with_line(text, key, value))
            == lines(text).push(key + seq!['='] + value),
{
    reveal_strlit("=");
    reveal_strlit("\n");
    assert("="@ =~= seq!['=']);
    assert("\n"@ =~= seq!['\n']);
    let broken = text.len() > 0 && text.last() == '\n';
    let front = if broken { text } else { text + seq!['\n'] };
    let line = key + seq!['='] + value;
    assert(with_line(text, key, value) =~= front + line + seq!['\n']);
    if !line.contains('\n') && !(line.last() == '\r') && broken {
        assert forall|k: int| 0 <= k < line.len() implies line[k] != '\n' by {
            assert(line.contains(line[k]));
        }
        crate::bonds::lines_more(text, line);
    }
}

/// A file is kept where it holds something and no more than eight kilobytes.
pub proof fn what_is_worth_keeping(name: Seq<char>, file: Option<Vec<u8>>)
    ensures
        match file {
            Some(data) => kept_as(name, file) == (if 0 < data@.len() <= 8192 { seq![(name, data@)] } else { Seq::empty() }),
            None => kept_as(name, file).len() == 0,
        },
{
}

/// What is saved and loaded again is the same: a blob that was packed reads back with the entries it was
/// packed from, and such a save counts as done.
pub proof fn a_save_reads_back(entries: &[Entry], blob: Vec<u8>, dev: &[u8], back: Result<Vec<Entry>, BlobError>, code: i32)
    requires
        call_ensures(pack_v2, (entries,), Ok(blob)),
        names_plain(contents(entries@)),
        dev@ == blob@,
        call_ensures(read_blob, (dev,), back),
        call_ensures(save_outcome, (&back, entries), code),
    ensures
        back matches Ok(b) && contents(b@) == contents(entries@),
        code == 0,
{
    a_blob_reads_back(contents(entries@));
}

} // verus!
