//! The stored bonds: one line of hexadecimal per phone, with its link key and, once it was
//! learned, the channel it answers on. And the written form of an address.

use vstd::prelude::*;

use crate::bytes::{append, copy, copy_range, le16, put_le16, same};
use crate::text::{digit_reads, digit_value, digits_value, first, first_bounds, hex2, hex2_upper, hex_of, hex_text};
use crate::text::{first_at, untouched, hex_text_at, hex_text_len, hex_text_plain};
use crate::text::{is_space, lines, lines_of, mac_text, pieces, read_unsigned, split_on, trim};
use crate::text::{trimmed, unsigned, views};

verus! {

/// One stored bond: the address, its kind, the key and its length.
pub const KEY_LEN: usize = 25;
/// A bond may carry one more byte: the channel that phone answers iAP on.
pub const WITH_CHANNEL: usize = 26;

/// The bytes of each record in a list.
pub open spec fn records_of(list: Seq<Vec<u8>>) -> Seq<Seq<u8>> {
    Seq::new(list.len(), |i: int| list[i]@)
}

/// Whether every record is a bond, with or without its channel.
pub open spec fn sound(list: Seq<Seq<u8>>) -> bool {
    forall|i: int| 0 <= i < list.len() ==> (#[trigger] list[i]).len() == KEY_LEN || list[i].len() == WITH_CHANNEL
}

/// Two characters as a byte.
pub open spec fn byte_at(t: Seq<char>, i: int) -> Option<int> {
    unsigned(t.subrange(2 * i, 2 * i + 2), 16, 255)
}

/// The bytes of one stored line.
pub open spec fn line_bytes(line: Seq<char>) -> Option<Seq<u8>> {
    let t = trim(line);
    let n = t.len() / 2;
    if (t.len() == 2 * KEY_LEN || t.len() == 2 * WITH_CHANNEL)
        && (forall|i: int| 0 <= i < n ==> (#[trigger] byte_at(t, i)) is Some) {
        Some(Seq::new(n, |i: int| byte_at(t, i)->0 as u8))
    } else {
        None
    }
}

/// One stored line back into bytes.
pub fn unhex(line: &str) -> (r: Option<Vec<u8>>)
    ensures
        match r {
            Some(v) => line_bytes(line@) == Some(v@),
            None => line_bytes(line@) is None,
        },
{
    let t = trimmed(line);
    let len: usize = t.as_str().unicode_len();
    if len != 2 * KEY_LEN && len != 2 * WITH_CHANNEL {
        return None;
    }
    let n: usize = len / 2;
    let mut out: Vec<u8> = Vec::new();
    let mut i: usize = 0;
    while i < n
        invariant
            t@ == trim(line@),
            t@.len() == 2 * n,
            i <= n <= 26,
            out@.len() == i,
            forall|j: int| 0 <= j < i ==> (#[trigger] byte_at(t@, j)) == Some(out@[j] as int),
        decreases n - i,
    {
        match read_unsigned(t.as_str().substring_char(2 * i, 2 * i + 2), 16, 255) {
            Some(v) => {
                out.push(v as u8);
            },
            None => {
                assert(byte_at(t@, i as int) is None);
                return None;
            },
        }
        i += 1;
    }
    assert(out@ =~= line_bytes(line@)->0);
    Some(out)
}

/// The bonds a text holds, one per line, the lines that hold none passed over.
pub open spec fn bonds_in(ls: Seq<Seq<char>>) -> Seq<Seq<u8>>
    decreases ls.len(),
{
    if ls.len() == 0 {
        Seq::empty()
    } else {
        match line_bytes(ls.last()) {
            Some(b) => bonds_in(ls.drop_last()).push(b),
            None => bonds_in(ls.drop_last()),
        }
    }
}

/// Every bond a text holds, each one optionally carrying the channel learned for it.
pub fn stored_keys(text: &str) -> (out: Vec<Vec<u8>>)
    ensures
        records_of(out@) == bonds_in(lines(text@)),
        sound(records_of(out@)),
{
    let all = lines_of(text);
    let ghost ls = lines(text@);
    let mut out: Vec<Vec<u8>> = Vec::new();
    let mut i: usize = 0;
    assert(records_of(out@) =~= bonds_in(ls.take(0)));
    while i < all.len()
        invariant
            i <= all@.len(),
            ls == lines(text@),
            views(all@) == ls,
            records_of(out@) == bonds_in(ls.take(i as int)),
            sound(records_of(out@)),
        decreases all@.len() - i,
    {
        assert(views(all@)[i as int] == all@[i as int]@);
        assert(ls.take(i + 1).drop_last() =~= ls.take(i as int));
        let ghost before = records_of(out@);
        if let Some(b) = unhex(all[i].as_str()) {
            let ghost v = b@;
            out.push(b);
            assert(records_of(out@) =~= before.push(v));
            assert(v.len() == KEY_LEN || v.len() == WITH_CHANNEL);
        }
        i += 1;
    }
    assert(ls.len() == all@.len());
    assert(ls.take(i as int) =~= ls);
    out
}

/// The text bonds are kept as: one line each.
pub open spec fn kept_text(list: Seq<Seq<u8>>) -> Seq<char>
    decreases list.len(),
{
    if list.len() == 0 {
        Seq::empty()
    } else {
        kept_text(list.drop_last()) + hex_text(list.last()) + "\n"@
    }
}

/// The text bonds are kept as.
pub fn keep(records: &Vec<Vec<u8>>) -> (text: String)
    ensures
        text@ == kept_text(records_of(records@)),
{
    let ghost all = records_of(records@);
    let mut text = String::new();
    let mut i: usize = 0;
    assert(text@ =~= kept_text(all.take(0)));
    while i < records.len()
        invariant
            i <= records@.len(),
            all == records_of(records@),
            text@ == kept_text(all.take(i as int)),
        decreases records@.len() - i,
    {
        text.append(hex_of(&records[i]).as_str());
        text.append("\n");
        assert(all.take(i + 1).drop_last() =~= all.take(i as int));
        i += 1;
    }
    assert(all.take(i as int) =~= all);
    text
}

/// Whether a record belongs to an address.
pub open spec fn belongs(record: Seq<u8>, addr: Seq<u8>) -> bool {
    record.take(6) == addr
}

/// The channel learned for an address: that of its first record that carries one.
pub open spec fn learned(list: Seq<Seq<u8>>, addr: Seq<u8>) -> Option<u8>
    decreases list.len(),
{
    if list.len() == 0 {
        None
    } else if belongs(list[0], addr) && list[0].len() == WITH_CHANNEL {
        Some(list[0][KEY_LEN as int])
    } else {
        learned(list.skip(1), addr)
    }
}

/// The records of all other addresses.
pub open spec fn others(list: Seq<Seq<u8>>, addr: Seq<u8>) -> Seq<Seq<u8>>
    decreases list.len(),
{
    if list.len() == 0 {
        Seq::empty()
    } else if belongs(list.last(), addr) {
        others(list.drop_last(), addr)
    } else {
        others(list.drop_last(), addr).push(list.last())
    }
}

/// The bonds after a new one: it takes the place of what was kept for its address, goes to the
/// end, and carries the channel over that was learned before.
pub open spec fn with_bond(list: Seq<Seq<u8>>, key: Seq<u8>) -> Seq<Seq<u8>> {
    let addr = key.take(6);
    others(list, addr).push(match learned(list, addr) {
        Some(channel) => key.push(channel),
        None => key,
    })
}

fn starts_as(record: &Vec<u8>, addr: &[u8]) -> (r: bool)
    requires
        record@.len() >= 6,
        addr@.len() == 6,
    ensures
        r == belongs(record@, addr@),
{
    let head = copy_range(record, 0, 6);
    assert(head@ =~= record@.take(6));
    same(&head, addr)
}

/// The channel learned for one phone.
pub fn channel_of(records: &Vec<Vec<u8>>, phone: &[u8]) -> (r: Option<u8>)
    requires
        sound(records_of(records@)),
        phone@.len() == 6,
    ensures
        r == learned(records_of(records@), phone@),
{
    let ghost all = records_of(records@);
    let mut i: usize = 0;
    assert(all.skip(0) =~= all);
    while i < records.len()
        invariant
            i <= records@.len(),
            all == records_of(records@),
            sound(all),
            phone@.len() == 6,
            learned(all, phone@) == learned(all.skip(i as int), phone@),
        decreases records@.len() - i,
    {
        let r = &records[i];
        assert(all[i as int] == r@);
        assert(all.skip(i as int)[0] == r@);
        assert(all.skip(i as int).skip(1) =~= all.skip(i + 1));
        if starts_as(r, phone) && r.len() == WITH_CHANNEL {
            return Some(r[KEY_LEN]);
        }
        i += 1;
    }
    None
}

/// Keeps one bond, carrying over the channel we already learned for that phone. Something that
/// is no bond is not kept.
pub fn remember(records: &Vec<Vec<u8>>, key: &[u8]) -> (r: Option<Vec<Vec<u8>>>)
    requires
        sound(records_of(records@)),
    ensures
        match r {
            Some(out) => key@.len() == KEY_LEN && records_of(out@) == with_bond(records_of(records@), key@)
                && sound(records_of(out@)),
            None => key@.len() != KEY_LEN,
        },
{
    if key.len() != KEY_LEN {
        return None;
    }
    let addr = copy_range(key, 0, 6);
    assert(addr@ =~= key@.take(6));
    let channel = channel_of(records, &addr);
    let ghost all = records_of(records@);
    let mut out: Vec<Vec<u8>> = Vec::new();
    let mut i: usize = 0;
    assert(records_of(out@) =~= others(all.take(0), addr@));
    while i < records.len()
        invariant
            i <= records@.len(),
            all == records_of(records@),
            sound(all),
            addr@.len() == 6,
            records_of(out@) == others(all.take(i as int), addr@),
            sound(records_of(out@)),
        decreases records@.len() - i,
    {
        assert(all[i as int] == records@[i as int]@);
        assert(all.take(i + 1).drop_last() =~= all.take(i as int));
        let ghost before = records_of(out@);
        if !starts_as(&records[i], &addr) {
            out.push(copy(&records[i]));
            assert(records_of(out@) =~= before.push(all[i as int]));
        }
        i += 1;
    }
    assert(all.take(i as int) =~= all);
    let mut fresh = copy(key);
    if let Some(c) = channel {
        fresh.push(c);
    }
    let ghost before = records_of(out@);
    let ghost last = fresh@;
    out.push(fresh);
    assert(records_of(out@) =~= before.push(last));
    Some(out)
}

/// The first record of an address, or the length where it has none.
pub open spec fn record_of(list: Seq<Seq<u8>>, addr: Seq<u8>) -> nat
    decreases list.len(),
{
    if list.len() == 0 || belongs(list[0], addr) { 0 } else { 1 + record_of(list.skip(1), addr) }
}

/// A record with its channel set.
pub open spec fn with_channel(record: Seq<u8>, channel: u8) -> Seq<u8> {
    record.take(KEY_LEN as int).push(channel)
}

/// Keeps the channel a phone answers iAP on, or says that there is nothing new to keep: no record
/// of that phone, or one that already carries this channel.
pub fn remember_channel(records: &Vec<Vec<u8>>, phone: &[u8], channel: u8) -> (r: Option<Vec<Vec<u8>>>)
    requires
        sound(records_of(records@)),
        phone@.len() == 6,
    ensures
        ({
            let list = records_of(records@);
            let at = record_of(list, phone@) as int;
            let known = at >= list.len() || list[at] == with_channel(list[at], channel);
            match r {
                Some(out) => !known && records_of(out@) == list.update(at, with_channel(list[at], channel)),
                None => known,
            }
        }),
{
    let ghost all = records_of(records@);
    let mut at: usize = 0;
    assert(all.skip(0) =~= all);
    assert forall|j: int| 0 <= j < records@.len() implies (#[trigger] records@[j])@.len() >= 6 by {
        assert(all[j] == records@[j]@);
    }
    while at < records.len() && !starts_as(&records[at], phone)
        invariant
            at <= records@.len(),
            all == records_of(records@),
            sound(all),
            forall|j: int| 0 <= j < records@.len() ==> (#[trigger] records@[j])@ == all[j],
            forall|j: int| 0 <= j < records@.len() ==> (#[trigger] records@[j])@.len() >= 6,
            phone@.len() == 6,
            record_of(all, phone@) == at + record_of(all.skip(at as int), phone@),
        decreases records@.len() - at,
    {
        assert(all.skip(at as int)[0] == records@[at as int]@);
        assert(all.skip(at as int).skip(1) =~= all.skip(at + 1));
        at += 1;
    }
    if at >= records.len() {
        assert(all.skip(at as int).len() == 0);
        return None;
    }
    assert(all.skip(at as int)[0] == records@[at as int]@);
    assert(all[at as int] == records@[at as int]@);
    let mine = &records[at];
    if mine.len() == WITH_CHANNEL && mine[KEY_LEN] == channel {
        assert(mine@ =~= with_channel(mine@, channel));
        return None;
    }
    let mut changed = copy_range(mine, 0, KEY_LEN);
    assert(changed@ =~= mine@.take(KEY_LEN as int));
    changed.push(channel);
    proof {
        if mine@ == with_channel(mine@, channel) {
            assert(with_channel(mine@, channel).len() == WITH_CHANNEL);
            assert(with_channel(mine@, channel)[KEY_LEN as int] == channel);
        }
    }
    let mut out: Vec<Vec<u8>> = Vec::new();
    let mut i: usize = 0;
    while i < records.len()
        invariant
            i <= records@.len(),
            at < records@.len(),
            all == records_of(records@),
            changed@ == with_channel(all[at as int], channel),
            out@.len() == i,
            forall|j: int| 0 <= j < i ==> (#[trigger] out@[j])@
                == (if j == at { changed@ } else { records@[j]@ }),
        decreases records@.len() - i,
    {
        if i == at {
            out.push(copy(&changed));
        } else {
            out.push(copy(&records[i]));
        }
        i += 1;
    }
    assert(records_of(out@) =~= all.update(at as int, with_channel(all[at as int], channel)));
    Some(out)
}

/// The bonds as the kernel takes them: a flag, how many there are, then each without its channel.
pub open spec fn bond_params(list: Seq<Seq<u8>>) -> Seq<u8> {
    seq![0u8] + le16((list.len() % 0x1_0000) as u16) + bare_keys(list)
}

/// The keys one after the other, without their channels.
pub open spec fn bare_keys(list: Seq<Seq<u8>>) -> Seq<u8>
    decreases list.len(),
{
    if list.len() == 0 { Seq::empty() } else { bare_keys(list.drop_last()) + list.last().take(KEY_LEN as int) }
}

/// What hands the kernel the bonds from earlier runs. Nothing is handed over where there are
/// none.
pub fn restore(keys: &Vec<Vec<u8>>) -> (r: Option<Vec<u8>>)
    requires
        sound(records_of(keys@)),
    ensures
        match r {
            Some(params) => {
                &&& keys@.len() > 0
                &&& params@ == bond_params(records_of(keys@))
                &&& params@.len() == 3 + 25 * keys@.len()
                &&& params@[0] == 0
                &&& keys@.len() <= 0xffff ==> params@[1] + 256 * params@[2] == keys@.len()
                &&& forall|i: int| 0 <= i < keys@.len() ==> params@.subrange(3 + 25 * i, 3 + 25 * (i + 1))
                    == (#[trigger] keys@[i])@.take(25)
            },
            None => keys@.len() == 0,
        },
{
    if keys.len() == 0 {
        return None;
    }
    let ghost all = records_of(keys@);
    let mut params: Vec<u8> = Vec::new();
    params.push(0u8);
    put_le16(&mut params, (keys.len() % 0x1_0000) as u16);
    let ghost head = params@;
    assert(head =~= seq![0u8] + le16((all.len() % 0x1_0000) as u16));
    assert(params@ =~= head + bare_keys(all.take(0)));
    let mut i: usize = 0;
    while i < keys.len()
        invariant
            i <= keys@.len(),
            all == records_of(keys@),
            sound(all),
            params@ == head + bare_keys(all.take(i as int)),
        decreases keys@.len() - i,
    {
        assert(all[i as int] == keys@[i as int]@);
        let bare = copy_range(&keys[i], 0, KEY_LEN);
        assert(bare@ =~= all[i as int].take(KEY_LEN as int));
        append(&mut params, &bare);
        assert(all.take(i + 1).drop_last() =~= all.take(i as int));
        assert(params@ =~= head + bare_keys(all.take(i + 1)));
        i += 1;
    }
    assert(all.take(i as int) =~= all);
    proof {
        every_bond_is_handed_over(all, 0);
        assert forall|i: int| 0 <= i < keys@.len() implies params@.subrange(3 + 25 * i, 3 + 25 * (i + 1))
            == (#[trigger] keys@[i])@.take(25) by {
            every_bond_is_handed_over(all, i);
            assert(all[i] == keys@[i]@);
        }
    }
    Some(params)
}

/// The address a text writes: six hexadecimal parts with colons between, the first part being the
/// last byte.
pub open spec fn written(text: Seq<char>) -> Option<Seq<u8>> {
    let p = split_on(trim(text), ':');
    if p.len() == 6 && (forall|i: int| 0 <= i < 6 ==> unsigned(#[trigger] p[i], 16, 255) is Some) {
        Some(Seq::new(6, |i: int| unsigned(p[5 - i], 16, 255)->0 as u8))
    } else {
        None
    }
}

/// Six bytes out of a written address, in the order the kernel wants.
pub fn address(text: &str) -> (r: Option<[u8; 6]>)
    ensures
        match r {
            Some(a) => written(text@) == Some(a@),
            None => written(text@) is None,
        },
{
    let t = trimmed(text);
    let p = pieces(t.as_str(), ':');
    let ghost v = views(p@);
    assert(v.len() == p@.len());
    if p.len() != 6 {
        return None;
    }
    assert forall|i: int| 0 <= i < 6 implies #[trigger] v[i] == p@[i]@ by {}
    let mut bytes: Vec<u8> = Vec::new();
    let mut i: usize = 0;
    while i < 6
        invariant
            i <= 6,
            p@.len() == 6,
            v == views(p@),
            v == split_on(trim(text@), ':'),
            bytes@.len() == i,
            forall|j: int| 0 <= j < i ==> unsigned(#[trigger] v[j], 16, 255) == Some(bytes@[j] as int),
        decreases 6 - i,
    {
        assert(v[i as int] == p@[i as int]@);
        match read_unsigned(p[i].as_str(), 16, 255) {
            Some(b) => {
                bytes.push(b as u8);
            },
            None => {
                return None;
            },
        }
        i += 1;
    }
    let a = [bytes[5], bytes[4], bytes[3], bytes[2], bytes[1], bytes[0]];
    assert(a@ =~= written(text@)->0);
    Some(a)
}

/// The six address bytes at the front of an event.
pub fn six(body: &[u8]) -> (r: Option<[u8; 6]>)
    ensures
        match r {
            Some(a) => body@.len() >= 6 && a@ == body@.take(6),
            None => body@.len() < 6,
        },
{
    if body.len() < 6 {
        return None;
    }
    let a = [body[0], body[1], body[2], body[3], body[4], body[5]];
    assert(a@ =~= body@.take(6));
    Some(a)
}

/// The address at the front of most events, as text.
pub open spec fn front_text(body: Seq<u8>) -> Seq<char> {
    if body.len() < 6 { "?"@ } else { mac_text(body.take(6)) }
}

/// The address at the front of most events, as text.
pub fn addr(body: &[u8]) -> (out: String)
    ensures
        out@ == front_text(body@),
{
    match six(body) {
        Some(a) => crate::text::mac(&a),
        None => "?".to_owned(),
    }
}

proof fn two_digits_read(s: Seq<char>, b: u8)
    requires
        s.len() == 2,
        digit_value(s[0]) == Some(b as int / 16),
        digit_value(s[1]) == Some(b as int % 16),
        s[0] != '+',
    ensures
        unsigned(s, 16, 255) == Some(b as int),
{
    assert(s.drop_last().drop_last().len() == 0);
    assert(digits_value(s.drop_last().drop_last(), 16) == Some(0int));
    assert(s.drop_last().last() == s[0]);
    assert(digits_value(s.drop_last(), 16) == Some(b as int / 16));
}

proof fn split_first(p: Seq<char>, rest: Seq<char>, c: char)
    requires
        forall|i: int| 0 <= i < p.len() ==> p[i] != c,
    ensures
        split_on(p + seq![c] + rest, c) == seq![p] + split_on(rest, c),
        split_on(p, c) == seq![p],
{
    let s = p + seq![c] + rest;
    first_at(s, c, p.len() as int);
    assert(s.take(p.len() as int) =~= p);
    assert(s.skip(p.len() as int + 1) =~= rest);
    first_at(p, c, p.len() as int);
}

/// Whether a piece holds neither a colon nor white space.
spec fn plain(p: Seq<char>) -> bool {
    p.len() == 2 && (forall|j: int| 0 <= j < p.len() ==> p[j] != ':' && !is_space(p[j]))
}

spec fn chained(p0: Seq<char>, p1: Seq<char>, p2: Seq<char>, p3: Seq<char>, p4: Seq<char>, p5: Seq<char>) -> Seq<char> {
    p0 + (seq![':'] + (p1 + (seq![':'] + (p2 + (seq![':'] + (p3 + (seq![':'] + (p4 + (seq![':'] + p5)))))))))
}

proof fn regrouped(p0: Seq<char>, p1: Seq<char>, p2: Seq<char>, p3: Seq<char>, p4: Seq<char>, p5: Seq<char>, c: Seq<char>)
    requires
        c == seq![':'],
    ensures
        p0 + c + p1 + c + p2 + c + p3 + c + p4 + c + p5 == chained(p0, p1, p2, p3, p4, p5),
{
    assert(p0 + c + p1 + c + p2 + c + p3 + c + p4 + c + p5 =~= chained(p0, p1, p2, p3, p4, p5));
}

proof fn split_chained(p0: Seq<char>, p1: Seq<char>, p2: Seq<char>, p3: Seq<char>, p4: Seq<char>, p5: Seq<char>)
    requires
        plain(p0) && plain(p1) && plain(p2) && plain(p3) && plain(p4) && plain(p5),
    ensures
        split_on(chained(p0, p1, p2, p3, p4, p5), ':') == seq![p0, p1, p2, p3, p4, p5],
        trim(chained(p0, p1, p2, p3, p4, p5)) == chained(p0, p1, p2, p3, p4, p5),
{
    let c = seq![':'];
    let r4 = p4 + (c + p5);
    let r3 = p3 + (c + r4);
    let r2 = p2 + (c + r3);
    let r1 = p1 + (c + r2);
    let r0 = p0 + (c + r1);
    split_first(p5, p5, ':');
    split_next(p4, p5);
    split_next(p3, r4);
    split_next(p2, r3);
    split_next(p1, r2);
    split_next(p0, r1);
    assert(split_on(r0, ':') =~= seq![p0, p1, p2, p3, p4, p5]);
    assert(r0[0] == p0[0]);
    assert(r4.last() == p5[1]);
    assert(r3.last() == r4.last());
    assert(r2.last() == r3.last());
    assert(r1.last() == r2.last());
    assert(r0.last() == r1.last());
    untouched(r0);
}

proof fn split_next(p: Seq<char>, rest: Seq<char>)
    requires
        plain(p),
    ensures
        split_on(p + (seq![':'] + rest), ':') == seq![p] + split_on(rest, ':'),
{
    assert(p + (seq![':'] + rest) =~= p + seq![':'] + rest);
    split_first(p, rest, ':');
}

/// A byte that was written with two digits is read back.
pub proof fn a_byte_reads_back(b: u8)
    ensures
        unsigned(hex2_upper(b), 16, 255) == Some(b as int),
{
    byte_plain(b);
}

proof fn byte_plain(b: u8)
    ensures
        plain(hex2_upper(b)),
        unsigned(hex2_upper(b), 16, 255) == Some(b as int),
{
    digit_reads(b as int / 16);
    digit_reads(b as int % 16);
    two_digits_read(hex2_upper(b), b);
}

/// An address that was written as text is read back from it.
pub proof fn an_address_reads_back(b: Seq<u8>)
    requires
        b.len() == 6,
    ensures
        written(mac_text(b)) == Some(b),
{
    reveal_strlit(":");
    assert(":"@ =~= seq![':']);
    byte_plain(b[0]);
    byte_plain(b[1]);
    byte_plain(b[2]);
    byte_plain(b[3]);
    byte_plain(b[4]);
    byte_plain(b[5]);
    let (p0, p1, p2, p3, p4, p5) = (
        hex2_upper(b[5]), hex2_upper(b[4]), hex2_upper(b[3]), hex2_upper(b[2]), hex2_upper(b[1]), hex2_upper(b[0]),
    );
    regrouped(p0, p1, p2, p3, p4, p5, ":"@);
    split_chained(p0, p1, p2, p3, p4, p5);
    assert(mac_text(b) == chained(p0, p1, p2, p3, p4, p5));
    let p = split_on(trim(mac_text(b)), ':');
    assert(p == seq![p0, p1, p2, p3, p4, p5]);
    assert forall|i: int| 0 <= i < 6 implies unsigned(#[trigger] p[i], 16, 255) == Some(b[5 - i] as int) by {}
    assert(written(mac_text(b))->0 =~= b);
}

proof fn a_line_reads_back(data: Seq<u8>)
    requires
        data.len() == KEY_LEN || data.len() == WITH_CHANNEL,
    ensures
        line_bytes(hex_text(data)) == Some(data),
{
    let t = hex_text(data);
    hex_text_len(data);
    hex_text_plain(data, 0);
    hex_text_plain(data, t.len() - 1);
    untouched(t);
    assert forall|i: int| 0 <= i < data.len() implies (#[trigger] byte_at(t, i)) == Some(data[i] as int) by {
        hex_text_at(data, i);
        digit_reads(data[i] as int / 16);
        digit_reads(data[i] as int % 16);
        two_digits_read(hex2(data[i]), data[i]);
    }
    assert(line_bytes(t)->0 =~= data);
}

/// A line that is added behind whole lines is the last of them.
pub proof fn lines_more(front: Seq<char>, line: Seq<char>)
    requires
        forall|k: int| 0 <= k < line.len() ==> line[k] != '\n',
        line.len() > 0 ==> line.last() != '\r',
        front.len() == 0 || front.last() == '\n',
    ensures
        lines(front + line + seq!['\n']) == lines(front).push(line),
    decreases front.len(),
{
    let s = front + line + seq!['\n'];
    if front.len() == 0 {
        assert(s =~= line + seq!['\n']);
        first_at(s, '\n', line.len() as int);
        assert(s.take(line.len() as int) =~= line);
        assert(s.skip(line.len() as int + 1) =~= Seq::<char>::empty());
        assert(lines(s.skip(line.len() as int + 1)) =~= Seq::<Seq<char>>::empty());
        assert(lines(s) =~= lines(front).push(line));
    } else {
        first_bounds(front, '\n');
        let i = first(front, '\n') as int;
        if i >= front.len() {
            assert(front[front.len() - 1] != '\n');
        }
        first_at(s, '\n', i);
        let rest = front.skip(i + 1);
        assert(s.take(i) =~= front.take(i));
        assert(s.skip(i + 1) =~= rest + line + seq!['\n']);
        assert(rest.len() > 0 ==> rest.last() == front.last());
        lines_more(rest, line);
        assert(lines(s) =~= lines(front).push(line));
    }
}

/// Bonds that were kept are all there again when they are read, in their order.
pub proof fn kept_bonds_are_read_back(list: Seq<Seq<u8>>)
    requires
        sound(list),
    ensures
        bonds_in(lines(kept_text(list))) == list,
    decreases list.len(),
{
    kept_lines(list);
    if list.len() == 0 {
        assert(bonds_in(lines(kept_text(list))) =~= list);
    } else {
        let front = list.drop_last();
        assert forall|i: int| 0 <= i < front.len() implies (#[trigger] front[i]).len() == KEY_LEN
            || front[i].len() == WITH_CHANNEL by {
            assert(front[i] == list[i]);
        }
        kept_bonds_are_read_back(front);
        assert(list[list.len() - 1] == list.last());
        a_line_reads_back(list.last());
        let ls = lines(kept_text(list));
        assert(ls.drop_last() =~= lines(kept_text(front)));
        assert(bonds_in(ls) =~= list);
    }
}

proof fn kept_lines(list: Seq<Seq<u8>>)
    ensures
        list.len() == 0 ==> lines(kept_text(list)).len() == 0,
        list.len() > 0 ==> lines(kept_text(list)) == lines(kept_text(list.drop_last())).push(hex_text(list.last())),
        kept_text(list).len() == 0 || kept_text(list).last() == '\n',
    decreases list.len(),
{
    reveal_strlit("\n");
    assert("\n"@ =~= seq!['\n']);
    if list.len() > 0 {
        kept_lines(list.drop_last());
        let line = hex_text(list.last());
        assert forall|k: int| 0 <= k < line.len() implies line[k] != '\n' && line[k] != '\r' by {
            hex_text_plain(list.last(), k);
        }
        lines_more(kept_text(list.drop_last()), line);
    }
}

proof fn others_hold_none(list: Seq<Seq<u8>>, addr: Seq<u8>)
    ensures
        forall|i: int| 0 <= i < others(list, addr).len() ==> !belongs(#[trigger] others(list, addr)[i], addr),
    decreases list.len(),
{
    if list.len() > 0 {
        others_hold_none(list.drop_last(), addr);
        let front = others(list.drop_last(), addr);
        assert forall|i: int| 0 <= i < others(list, addr).len() implies
            !belongs(#[trigger] others(list, addr)[i], addr) by {
            if i < front.len() {
                assert(others(list, addr)[i] == front[i]);
            }
        }
    }
}

proof fn learned_in(a: Seq<Seq<u8>>, last: Seq<u8>, addr: Seq<u8>)
    requires
        forall|i: int| 0 <= i < a.len() ==> !belongs(#[trigger] a[i], addr),
    ensures
        learned(a.push(last), addr) == (if belongs(last, addr) && last.len() == WITH_CHANNEL {
            Some(last[KEY_LEN as int])
        } else {
            None
        }),
    decreases a.len(),
{
    if a.len() == 0 {
        assert(a.push(last).skip(1) =~= Seq::<Seq<u8>>::empty());
        assert(learned(Seq::<Seq<u8>>::empty(), addr) is None);
        assert(a.push(last)[0] == last);
    } else {
        assert(a.push(last)[0] == a[0]);
        assert(a.push(last).skip(1) =~= a.skip(1).push(last));
        assert forall|i: int| 0 <= i < a.skip(1).len() implies !belongs(#[trigger] a.skip(1)[i], addr) by {
            assert(a.skip(1)[i] == a[i + 1]);
        }
        learned_in(a.skip(1), last, addr);
    }
}

/// A phone that bonds again keeps the channel that was learned for it, and has one record.
pub proof fn a_new_bond_keeps_the_channel(list: Seq<Seq<u8>>, key: Seq<u8>)
    requires
        key.len() == KEY_LEN,
    ensures
        learned(with_bond(list, key), key.take(6)) == learned(list, key.take(6)),
        forall|i: int| 0 <= i < with_bond(list, key).len() - 1 ==>
            !belongs(#[trigger] with_bond(list, key)[i], key.take(6)),
{
    let addr = key.take(6);
    others_hold_none(list, addr);
    let fresh = match learned(list, addr) {
        Some(channel) => key.push(channel),
        None => key,
    };
    assert(fresh.take(6) =~= addr);
    learned_in(others(list, addr), fresh, addr);
    assert forall|i: int| 0 <= i < with_bond(list, key).len() - 1 implies
        !belongs(#[trigger] with_bond(list, key)[i], addr) by {
        assert(with_bond(list, key)[i] == others(list, addr)[i]);
    }
}

/// A channel that was learned is the one that is dialled from then on.
pub proof fn a_learned_channel_is_known(list: Seq<Seq<u8>>, addr: Seq<u8>, channel: u8)
    requires
        sound(list),
        record_of(list, addr) < list.len(),
    ensures
        ({
            let at = record_of(list, addr) as int;
            learned(list.update(at, with_channel(list[at], channel)), addr) == Some(channel)
        }),
    decreases list.len(),
{
    let at = record_of(list, addr) as int;
    let now = list.update(at, with_channel(list[at], channel));
    if belongs(list[0], addr) {
        assert(at == 0);
        assert(list[0].len() == KEY_LEN || list[0].len() == WITH_CHANNEL);
        assert(now[0].take(6) =~= list[0].take(6));
    } else {
        let rest = list.skip(1);
        assert forall|i: int| 0 <= i < rest.len() implies (#[trigger] rest[i]).len() == KEY_LEN
            || rest[i].len() == WITH_CHANNEL by {
            assert(rest[i] == list[i + 1]);
        }
        a_learned_channel_is_known(rest, addr, channel);
        assert(now.skip(1) =~= rest.update(at - 1, with_channel(rest[at - 1], channel)));
        assert(now[0] == list[0]);
    }
}

/// The kernel is handed every bond once, in order: behind the flag and the count, each bond's key
/// stands in its own place, as the stored record has it, without the channel.
pub proof fn every_bond_is_handed_over(list: Seq<Seq<u8>>, i: int)
    requires
        sound(list),
        0 <= i < list.len(),
    ensures
        bond_params(list).len() == 3 + 25 * list.len(),
        bond_params(list)[0] == 0,
        list.len() <= 0xffff ==> bond_params(list)[1] + 256 * bond_params(list)[2] == list.len(),
        bond_params(list).subrange(3 + 25 * i, 3 + 25 * (i + 1)) == list[i].take(25),
{
    bare_at(list, i);
    let p = bond_params(list);
    assert(p.subrange(3 + 25 * i, 3 + 25 * (i + 1)) =~= bare_keys(list).subrange(25 * i, 25 * (i + 1)));
}

proof fn bare_at(list: Seq<Seq<u8>>, i: int)
    requires
        sound(list),
        0 <= i < list.len(),
    ensures
        bare_keys(list).len() == 25 * list.len(),
        bare_keys(list).subrange(25 * i, 25 * (i + 1)) == list[i].take(25),
    decreases list.len(),
{
    let front = list.drop_last();
    bare_len(front);
    assert(list[list.len() - 1].len() >= 25);
    if i < front.len() {
        assert(sound(front)) by {
            assert forall|j: int| 0 <= j < front.len() implies (#[trigger] front[j]).len() == KEY_LEN
                || front[j].len() == WITH_CHANNEL by {
                assert(front[j] == list[j]);
            }
        }
        bare_at(front, i);
        assert(bare_keys(list).subrange(25 * i, 25 * (i + 1)) =~= bare_keys(front).subrange(25 * i, 25 * (i + 1)));
    } else {
        assert(bare_keys(list).subrange(25 * i, 25 * (i + 1)) =~= list[i].take(25));
    }
}

proof fn bare_len(list: Seq<Seq<u8>>)
    ensures
        (forall|j: int| 0 <= j < list.len() ==> (#[trigger] list[j]).len() >= 25) ==> bare_keys(list).len() == 25 * list.len(),
    decreases list.len(),
{
    if list.len() > 0 {
        let front = list.drop_last();
        bare_len(front);
        if forall|j: int| 0 <= j < list.len() ==> (#[trigger] list[j]).len() >= 25 {
            assert forall|j: int| 0 <= j < front.len() implies (#[trigger] front[j]).len() >= 25 by {
                assert(front[j] == list[j]);
            }
            assert(list[list.len() - 1].len() >= 25);
        }
    }
}

/// A new bond leaves the records of all other phones as they are and in their order, and stands behind
/// them with the key that was handed over, followed by the channel where one was learned.
pub proof fn a_new_bond_leaves_the_others_alone(list: Seq<Seq<u8>>, key: Seq<u8>)
    requires
        key.len() == 25,
    ensures
        with_bond(list, key).drop_last() == list.filter(|r: Seq<u8>| r.take(6) != key.take(6)),
        with_bond(list, key).last().take(25) == key,
        match learned(list, key.take(6)) {
            Some(channel) => with_bond(list, key).last() == key + seq![channel],
            None => with_bond(list, key).last() == key,
        },
{
    let addr = key.take(6);
    others_are_filtered(list, key);
    let n = with_bond(list, key);
    assert(n.drop_last() =~= others(list, addr));
    assert(key.take(25) =~= key);
    match learned(list, addr) {
        Some(channel) => {
            assert(key.push(channel) =~= key + seq![channel]);
            assert(key.push(channel).take(25) =~= key);
        },
        None => {},
    }
}

proof fn others_are_filtered(list: Seq<Seq<u8>>, key: Seq<u8>)
    ensures
        others(list, key.take(6)) == list.filter(|r: Seq<u8>| r.take(6) != key.take(6)),
    decreases list.len(),
{
    reveal(Seq::filter);
    if list.len() > 0 {
        others_are_filtered(list.drop_last(), key);
    } else {
        assert(others(list, key.take(6)) =~= list.filter(|r: Seq<u8>| r.take(6) != key.take(6)));
    }
}

/// The channel of a phone is the last byte of its first record that carries one, and it has none only
/// where no record of it does.
pub proof fn the_channel_comes_from_the_first_record_with_one(list: Seq<Seq<u8>>, addr: Seq<u8>)
    ensures
        match learned(list, addr) {
            Some(channel) => exists|i: int| #![trigger list[i]] 0 <= i < list.len() && list[i].take(6) == addr
                && list[i].len() == 26 && list[i][25] == channel
                && (forall|j: int| 0 <= j < i ==> !((#[trigger] list[j]).take(6) == addr && list[j].len() == 26)),
            None => forall|j: int| 0 <= j < list.len() ==> !((#[trigger] list[j]).take(6) == addr && list[j].len() == 26),
        },
    decreases list.len(),
{
    if list.len() > 0 && !(list[0].take(6) == addr && list[0].len() == 26) {
        let tail = list.skip(1);
        the_channel_comes_from_the_first_record_with_one(tail, addr);
        match learned(list, addr) {
            Some(channel) => {
                let i = choose|i: int| #![trigger tail[i]] 0 <= i < tail.len() && tail[i].take(6) == addr
                    && tail[i].len() == 26 && tail[i][25] == channel
                    && (forall|j: int| 0 <= j < i ==> !((#[trigger] tail[j]).take(6) == addr && tail[j].len() == 26));
                assert(list[i + 1] == tail[i]);
                assert forall|j: int| 0 <= j < i + 1 implies !((#[trigger] list[j]).take(6) == addr && list[j].len() == 26) by {
                    if j > 0 {
                        assert(list[j] == tail[j - 1]);
                    }
                }
            },
            None => {
                assert forall|j: int| 0 <= j < list.len() implies !((#[trigger] list[j]).take(6) == addr && list[j].len() == 26) by {
                    if j > 0 {
                        assert(list[j] == tail[j - 1]);
                    }
                }
            },
        }
    }
}

/// A channel is kept in the first record of its phone, and that record keeps its key.
pub proof fn a_channel_is_kept_behind_the_key(list: Seq<Seq<u8>>, addr: Seq<u8>, channel: u8)
    requires
        sound(list),
    ensures
        ({
            let at = record_of(list, addr) as int;
            &&& at <= list.len()
            &&& forall|j: int| 0 <= j < at ==> (#[trigger] list[j]).take(6) != addr
            &&& at < list.len() ==> {
                let new = with_channel(list[at], channel);
                &&& list[at].take(6) == addr
                &&& new.len() == 26
                &&& new.take(25) == list[at].take(25)
                &&& new[25] == channel
            }
        }),
    decreases list.len(),
{
    let at = record_of(list, addr) as int;
    if list.len() > 0 {
        if !belongs(list[0], addr) {
            let tail = list.skip(1);
            assert forall|i: int| 0 <= i < tail.len() implies (#[trigger] tail[i]).len() == KEY_LEN || tail[i].len() == WITH_CHANNEL by {
                assert(tail[i] == list[i + 1]);
            }
            a_channel_is_kept_behind_the_key(tail, addr, channel);
            assert forall|j: int| 0 <= j < at implies (#[trigger] list[j]).take(6) != addr by {
                if j > 0 {
                    assert(list[j] == tail[j - 1]);
                }
            }
            if at < list.len() {
                assert(list[at] == tail[at - 1]);
            }
        }
        if at < list.len() {
            assert(list[at].len() == KEY_LEN || list[at].len() == WITH_CHANNEL);
            let new = with_channel(list[at], channel);
            assert(new.take(25) =~= list[at].take(25));
        }
    }
}

/// What is handed to the kernel holds each stored key in its own place.
pub proof fn the_kernel_gets_each_key(keys: &Vec<Vec<u8>>, i: int, r: Option<Vec<u8>>)
    requires
        call_ensures(restore, (keys,), r),
        0 <= i < keys@.len() <= 0xffff,
        sound(records_of(keys@)),
    ensures
        r matches Some(params) && params@.len() == 3 + 25 * keys@.len() && params@[0] == 0
            && params@[1] + 256 * params@[2] == keys@.len()
            && params@.subrange(3 + 25 * i, 3 + 25 * (i + 1)) == keys@[i]@.take(25),
{
    assert(keys@[i]@ == records_of(keys@)[i]);
}

/// What is kept is read again as it was, and a bond that is remembered is the last of them, with the
/// others in front of it.
pub proof fn a_remembered_bond_comes_back(
    records: &Vec<Vec<u8>>,
    key: &[u8],
    out: Vec<Vec<u8>>,
    kept: String,
    text: &str,
    again: Vec<Vec<u8>>,
)
    requires
        sound(records_of(records@)),
        call_ensures(remember, (records, key), Some(out)),
        call_ensures(keep, (&out,), kept),
        text@ == kept@,
        call_ensures(stored_keys, (text,), again),
    ensures
        key@.len() == 25,
        records_of(again@) == records_of(out@),
        again@.len() > 0,
        again@.last()@.take(25) == key@,
{
    kept_bonds_are_read_back(records_of(out@));
    a_new_bond_leaves_the_others_alone(records_of(records@), key@);
    assert(records_of(again@).last() == again@.last()@);
}

} // verus!
