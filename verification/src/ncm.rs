//! The phone's USB network function: where it is found in the descriptors, and the address the
//! host is to use on it.

use vstd::prelude::*;

use vstd::utf8::{decode_utf8, encode_utf8, encode_utf8_decode_utf8, valid_utf8};

use crate::bytes::{copy_range, get_le16, u16_le};
use crate::text::{begins, chars_of, dec, lowercase, pieces, put_dec, same_text, split_on, starts_with, to_lower, to_upper};
use crate::text::{trim, trimmed, uppercase, utf8, views};

verus! {

pub const NCM_CONTROL_CLASS: u8 = 0x02;
pub const NCM_CONTROL_SUBCLASS: u8 = 0x0d;
pub const NCM_DATA_CLASS: u8 = 0x0a;

/// The interface that carries a phone's network function.
pub struct NcmBridge {
    pub ifname: String,
    /// Not set when the kernel already provides the interface and nothing needs bridging.
    pub bridged: bool,
}

/// The name of the interface the `n`th bridge brings up.
pub fn tap_name(n: u16) -> (out: String)
    ensures
        out@ == "cpusb"@ + dec(n as nat),
{
    let mut out = "cpusb".to_owned();
    put_dec(&mut out, n as u64);
    out
}

/// One network interface of the machine: its driver and its device, where it has them.
pub struct NetEntry {
    pub name: String,
    pub driver: Option<String>,
    pub device: Option<String>,
}

/// The pieces of a path that name something: neither empty nor the place itself.
pub open spec fn solid(pieces: Seq<Seq<char>>) -> Seq<Seq<char>>
    decreases pieces.len(),
{
    if pieces.len() == 0 {
        Seq::empty()
    } else if pieces.last() == ""@ || pieces.last() == "."@ {
        solid(pieces.drop_last())
    } else {
        solid(pieces.drop_last()).push(pieces.last())
    }
}

/// What a path starts from: the root, the place itself where that is written, or nothing.
pub open spec fn anchor(path: Seq<char>) -> Seq<Seq<char>> {
    if starts_with(path, "/"@) {
        seq!["/"@]
    } else if path == "."@ || starts_with(path, "./"@) {
        seq!["."@]
    } else {
        Seq::empty()
    }
}

/// The parts of a path, name by name.
pub open spec fn path_parts(path: Seq<char>) -> Seq<Seq<char>> {
    anchor(path) + solid(split_on(path, '/'))
}

/// Whether a path lies at or below another, name by name.
pub open spec fn below(path: Seq<char>, root: Seq<char>) -> bool {
    path_parts(root).is_prefix_of(path_parts(path))
}

/// The parts of a path.
fn parts_of(path: &str) -> (out: Vec<String>)
    ensures
        views(out@) == path_parts(path@),
{
    let mut out: Vec<String> = Vec::new();
    if begins(path, "/") {
        out.push("/".to_owned());
        assert(views(out@) =~= anchor(path@));
    } else if same_text(path, ".") || begins(path, "./") {
        out.push(".".to_owned());
        assert(views(out@) =~= anchor(path@));
    } else {
        assert(views(out@) =~= anchor(path@));
    }
    let p = pieces(path, '/');
    let ghost all = views(p@);
    let mut i: usize = 0;
    assert(anchor(path@) + solid(all.take(0)) =~= anchor(path@));
    while i < p.len()
        invariant
            i <= p@.len(),
            all == views(p@),
            views(out@) == anchor(path@) + solid(all.take(i as int)),
        decreases p@.len() - i,
    {
        assert(all[i as int] == p@[i as int]@);
        assert(all.take(i + 1).drop_last() =~= all.take(i as int));
        if !same_text(p[i].as_str(), "") && !same_text(p[i].as_str(), ".") {
            let ghost before = views(out@);
            out.push(p[i].clone());
            assert(views(out@) =~= before.push(all[i as int]));
            assert(views(out@) =~= anchor(path@) + solid(all.take(i + 1)));
        }
        i += 1;
    }
    assert(all.take(i as int) =~= all);
    out
}

/// Whether a path lies at or below another.
pub fn lies_below(path: &str, root: &str) -> (r: bool)
    ensures
        r == below(path@, root@),
{
    let p = parts_of(path);
    let q = parts_of(root);
    let ghost (a, b) = (views(p@), views(q@));
    if q.len() > p.len() {
        return false;
    }
    let mut i: usize = 0;
    while i < q.len()
        invariant
            i <= q@.len() <= p@.len(),
            a == views(p@),
            b == views(q@),
            a == path_parts(path@),
            b == path_parts(root@),
            forall|j: int| 0 <= j < i ==> a[j] == b[j],
        decreases q@.len() - i,
    {
        assert(a[i as int] == p@[i as int]@ && b[i as int] == q@[i as int]@);
        if !same_text(p[i].as_str(), q[i].as_str()) {
            proof {
                if b.is_prefix_of(a) {
                    assert(b[i as int] == a.subrange(0, b.len() as int)[i as int]);
                }
            }
            return false;
        }
        i += 1;
    }
    assert(b =~= a.subrange(0, b.len() as int));
    true
}

/// Whether an interface is the one the kernel made for a device.
pub open spec fn made_for(e: NetEntry, root: Seq<char>) -> bool {
    &&& e.driver matches Some(d) && d@ == "cdc_ncm"@
    &&& e.device matches Some(p) && below(p@, root)
}

/// Which of some interfaces the kernel made for a device, or the length where it made none.
pub open spec fn kernel_place(list: Seq<NetEntry>, root: Seq<char>) -> nat
    decreases list.len(),
{
    if list.len() == 0 || made_for(list[0], root) { 0 } else { 1 + kernel_place(list.skip(1), root) }
}

fn is_made_for(e: &NetEntry, root: &str) -> (r: bool)
    ensures
        r == made_for(*e, root@),
{
    let driver = match &e.driver {
        Some(d) => same_text(d.as_str(), "cdc_ncm"),
        None => false,
    };
    if !driver {
        return false;
    }
    match &e.device {
        Some(p) => lies_below(p.as_str(), root),
        None => false,
    }
}

/// The interface the kernel's own driver made for a device, if any: it carries the link, and
/// nothing needs bridging.
pub fn kernel_ncm_iface(list: &Vec<NetEntry>, root: &str) -> (r: Option<NcmBridge>)
    ensures
        match r {
            Some(b) => kernel_place(list@, root@) < list@.len() && !b.bridged
                && b.ifname@ == list@[kernel_place(list@, root@) as int].name@,
            None => kernel_place(list@, root@) == list@.len(),
        },
{
    let mut i: usize = 0;
    assert(list@.skip(0) =~= list@);
    while i < list.len()
        invariant
            i <= list@.len(),
            kernel_place(list@, root@) == i + kernel_place(list@.skip(i as int), root@),
        decreases list@.len() - i,
    {
        assert(list@.skip(i as int).skip(1) =~= list@.skip(i + 1));
        if is_made_for(&list[i], root) {
            return Some(NcmBridge { ifname: list[i].name.clone(), bridged: false });
        }
        i += 1;
    }
    None
}

/// One endpoint of an interface.
#[derive(Clone, Copy)]
pub struct EndpointInfo {
    pub address: u8,
    pub bulk: bool,
}

/// One alternate setting of an interface.
pub struct AltSetting {
    pub number: u8,
    pub class: u8,
    pub subclass: u8,
    pub endpoints: Vec<EndpointInfo>,
}

/// Control and data interface of the network function, with the data endpoints.
#[derive(Clone, Copy, PartialEq, Eq, Structural)]
pub struct NcmFunction {
    pub control: u8,
    pub data: u8,
    pub ep_in: u8,
    pub ep_out: u8,
}

/// The last bulk endpoint of a direction, or zero.
pub open spec fn last_bulk(eps: Seq<EndpointInfo>, inward: bool) -> u8
    decreases eps.len(),
{
    if eps.len() == 0 {
        0
    } else if eps.last().bulk && (eps.last().address >= 0x80) == inward {
        eps.last().address
    } else {
        last_bulk(eps.drop_last(), inward)
    }
}

/// The control interface seen last among some settings.
pub open spec fn control_of(alts: Seq<AltSetting>) -> Option<u8>
    decreases alts.len(),
{
    if alts.len() == 0 {
        None
    } else if alts.last().class == NCM_CONTROL_CLASS && alts.last().subclass == NCM_CONTROL_SUBCLASS {
        Some(alts.last().number)
    } else {
        control_of(alts.drop_last())
    }
}

/// The function a setting completes: a data interface behind a control interface, with bulk
/// endpoints both ways.
pub open spec fn function_at(alts: Seq<AltSetting>, i: int) -> Option<NcmFunction> {
    let a = alts[i];
    let (ep_in, ep_out) = (last_bulk(a.endpoints@, true), last_bulk(a.endpoints@, false));
    match control_of(alts.take(i + 1)) {
        Some(control) => if a.class == NCM_DATA_CLASS && ep_in != 0 && ep_out != 0 {
            Some(NcmFunction { control, data: a.number, ep_in, ep_out })
        } else {
            None
        },
        None => None,
    }
}

fn bulk_ends(eps: &Vec<EndpointInfo>) -> (r: (u8, u8))
    ensures
        r.0 == last_bulk(eps@, true),
        r.1 == last_bulk(eps@, false),
{
    let mut ep_in: u8 = 0;
    let mut ep_out: u8 = 0;
    let mut i: usize = 0;
    while i < eps.len()
        invariant
            i <= eps@.len(),
            ep_in == last_bulk(eps@.take(i as int), true),
            ep_out == last_bulk(eps@.take(i as int), false),
        decreases eps@.len() - i,
    {
        assert(eps@.take(i + 1).drop_last() =~= eps@.take(i as int));
        let e = eps[i];
        if e.bulk {
            if e.address >= 0x80 {
                ep_in = e.address;
            } else {
                ep_out = e.address;
            }
        }
        i += 1;
    }
    assert(eps@.take(i as int) =~= eps@);
    (ep_in, ep_out)
}

/// The first network function the settings of a configuration hold, read from the descriptors so
/// that model differences do not matter.
pub fn find_ncm_function(alts: &Vec<AltSetting>) -> (r: Option<NcmFunction>)
    ensures
        match r {
            Some(f) => exists|i: int| 0 <= i < alts@.len() && #[trigger] function_at(alts@, i) == Some(f)
                && forall|j: int| 0 <= j < i ==> (#[trigger] function_at(alts@, j)) is None,
            None => forall|i: int| 0 <= i < alts@.len() ==> (#[trigger] function_at(alts@, i)) is None,
        },
{
    let mut control: Option<u8> = None;
    let mut i: usize = 0;
    while i < alts.len()
        invariant
            i <= alts@.len(),
            control == control_of(alts@.take(i as int)),
            forall|j: int| 0 <= j < i ==> (#[trigger] function_at(alts@, j)) is None,
        decreases alts@.len() - i,
    {
        assert(alts@.take(i + 1).drop_last() =~= alts@.take(i as int));
        let a = &alts[i];
        if a.class == NCM_CONTROL_CLASS && a.subclass == NCM_CONTROL_SUBCLASS {
            control = Some(a.number);
        }
        if let Some(c) = control {
            if a.class == NCM_DATA_CLASS {
                let (ep_in, ep_out) = bulk_ends(&a.endpoints);
                if ep_in != 0 && ep_out != 0 {
                    let f = NcmFunction { control: c, data: a.number, ep_in, ep_out };
                    assert(function_at(alts@, i as int) == Some(f));
                    return Some(f);
                }
            }
        }
        assert(function_at(alts@, i as int) is None);
        i += 1;
    }
    None
}

/// The string that names the host's address, from the Ethernet descriptor of a control interface:
/// the descriptors are walked, and each interface descriptor says whose the following ones are.
/// Zero where there is none.
pub open spec fn mac_string(raw: Seq<u8>, i: int, current: int, control: u8) -> u8
    decreases raw.len() - i,
{
    if i < 0 || i + 2 > raw.len() || raw[i] < 2 {
        0
    } else if raw[i + 1] == 0x24 && raw[i] >= 4 && current == control && raw[i + 2] == 0x0F {
        raw[i + 3]
    } else {
        let next: int = if raw[i + 1] == 0x04 && raw[i] >= 3 { raw[i + 2] as int } else { current };
        if i + raw[i] > raw.len() { 0 } else { mac_string(raw, i + raw[i], next, control) }
    }
}

/// Whether every byte the walk reads is there: the number of an interface descriptor, and of the
/// descriptors of the control interface the kind and, where it is the Ethernet one, the string.
pub open spec fn walkable(raw: Seq<u8>, i: int, current: int, control: u8) -> bool
    decreases raw.len() - i,
{
    if i < 0 || i + 2 > raw.len() || raw[i] < 2 {
        true
    } else {
        let named = raw[i + 1] == 0x04 && raw[i] >= 3;
        let ours = raw[i + 1] == 0x24 && raw[i] >= 4 && current == control;
        if (named || ours) && i + 3 > raw.len() {
            false
        } else if ours && raw[i + 2] == 0x0F {
            i + 4 <= raw.len()
        } else if i + raw[i] > raw.len() {
            true
        } else {
            walkable(raw, i + raw[i], if named { raw[i + 2] as int } else { current }, control)
        }
    }
}

/// Whether the descriptors are whole as far as they are read for a control interface.
pub fn is_walkable(raw: &[u8], control: u8) -> (r: bool)
    ensures
        r == walkable(raw@, 0, -1, control),
{
    let mut i: usize = 0;
    let mut current: i32 = -1;
    loop
        invariant
            i <= raw@.len(),
            -1 <= current <= 255,
            walkable(raw@, 0, -1, control) == walkable(raw@, i as int, current as int, control),
        decreases raw@.len() - i,
    {
        if raw.len() - i < 2 || raw[i] < 2 {
            return true;
        }
        let len: usize = raw[i] as usize;
        let named = raw[i + 1] == 0x04 && len >= 3;
        let ours = raw[i + 1] == 0x24 && len >= 4 && current == control as i32;
        if (named || ours) && raw.len() - i < 3 {
            return false;
        }
        if ours && raw[i + 2] == 0x0F {
            return raw.len() - i >= 4;
        }
        if len > raw.len() - i {
            return true;
        }
        if named {
            current = raw[i + 2] as i32;
        }
        i = i + len;
    }
}

/// Finds the string that names the host's address.
pub fn mac_string_index(raw: &[u8], control: u8) -> (r: u8)
    requires
        walkable(raw@, 0, -1, control),
    ensures
        r == mac_string(raw@, 0, -1, control),
{
    let mut i: usize = 0;
    let mut current: i32 = -1;
    loop
        invariant
            i <= raw@.len(),
            -1 <= current <= 255,
            walkable(raw@, i as int, current as int, control),
            mac_string(raw@, 0, -1, control) == mac_string(raw@, i as int, current as int, control),
        decreases raw@.len() - i,
    {
        if raw.len() - i < 2 {
            return 0;
        }
        let len: usize = raw[i] as usize;
        let kind: u8 = raw[i + 1];
        if len < 2 {
            return 0;
        }
        if kind == 0x24 && len >= 4 && current == control as i32 && raw[i + 2] == 0x0F {
            return raw[i + 3];
        }
        if kind == 0x04 && len >= 3 {
            current = raw[i + 2] as i32;
        }
        if len > raw.len() - i {
            return 0;
        }
        i = i + len;
    }
}

/// One character in UTF-16: a unit by itself, or two that share its bits.
pub open spec fn units_of(c: char) -> Seq<u16> {
    let v = c as u32 as int;
    if v < 0x1_0000 {
        seq![v as u16]
    } else {
        seq![(0xd800 + (v - 0x1_0000) / 0x400) as u16, (0xdc00 + (v - 0x1_0000) % 0x400) as u16]
    }
}

/// A text in UTF-16.
pub open spec fn utf16_of(s: Seq<char>) -> Seq<u16>
    decreases s.len(),
{
    if s.len() == 0 { Seq::empty() } else { units_of(s[0]) + utf16_of(s.skip(1)) }
}

/// `String::from_utf16`: the text some units encode, or nothing where they encode none.
#[verifier::external_body]
fn utf16(units: &Vec<u16>) -> (r: Option<String>)
    ensures
        match r {
            Some(s) => utf16_of(s@) == units@,
            None => forall|s: Seq<char>| utf16_of(s) != units@,
        },
{
    String::from_utf16(units).ok()
}

/// The first unit of a character tells how many there are, and all of them tell the character.
proof fn units_tell(c: char, d: char)
    requires
        units_of(c)[0] == units_of(d)[0],
        units_of(c).len() == 2 && units_of(d).len() == 2 ==> units_of(c)[1] == units_of(d)[1],
    ensures
        c == d,
{
    let v = c as u32 as int;
    let w = d as u32 as int;
    assert(v == w);
}

/// A text is the only one that is written with its units.
proof fn utf16_is_unique(a: Seq<char>, b: Seq<char>)
    requires
        utf16_of(a) == utf16_of(b),
    ensures
        a == b,
    decreases a.len(),
{
    if a.len() == 0 {
        if b.len() > 0 {
            assert(utf16_of(b)[0] == units_of(b[0])[0]);
        }
        assert(a =~= b);
    } else if b.len() == 0 {
        assert(utf16_of(a)[0] == units_of(a[0])[0]);
    } else {
        let (u, v) = (utf16_of(a), utf16_of(b));
        assert(u[0] == units_of(a[0])[0]);
        assert(v[0] == units_of(b[0])[0]);
        if units_of(a[0]).len() == 2 && units_of(b[0]).len() == 2 {
            assert(u[1] == units_of(a[0])[1]);
            assert(v[1] == units_of(b[0])[1]);
        }
        units_tell(a[0], b[0]);
        let n = units_of(a[0]).len() as int;
        assert(u.skip(n) =~= utf16_of(a.skip(1)));
        assert(v.skip(n) =~= utf16_of(b.skip(1)));
        utf16_is_unique(a.skip(1), b.skip(1));
        assert(a =~= seq![a[0]] + a.skip(1));
        assert(b =~= seq![b[0]] + b.skip(1));
    }
}

/// The units of a string descriptor: two bytes each, as many as its length says, as far as they
/// are there.
pub open spec fn string_units(buf: Seq<u8>) -> Seq<u16> {
    let end = if buf[0] < buf.len() { buf[0] as int } else { buf.len() as int };
    Seq::new(if end < 2 { 0 } else { ((end - 2) / 2) as nat }, |i: int| u16_le(buf, 2 + 2 * i))
}

/// Whether a reply is a string descriptor with room for its own head.
pub open spec fn is_string(buf: Seq<u8>) -> bool {
    buf.len() >= 2 && buf[1] == 3
}

/// A pair of bytes out of some bytes.
pub open spec fn pair_of(b: Seq<u8>, i: int) -> Seq<u8> {
    b.subrange(2 * i, 2 * i + 2)
}

/// A pair of bytes out of a text, in lower case.
pub open spec fn lower_pair(b: Seq<u8>, i: int) -> Seq<char> {
    lowercase(decode_utf8(pair_of(b, i)))
}

/// Whether a text is twelve bytes long and falls into pairs between its characters.
pub open spec fn pairs_up(s: Seq<char>) -> bool {
    let b = encode_utf8(s);
    b.len() == 12 && forall|i: int| 0 <= i < 6 ==> valid_utf8(#[trigger] pair_of(b, i))
}

/// Twelve bytes as an address: pairs in lower case with colons between.
pub open spec fn paired(b: Seq<u8>) -> Seq<char> {
    lower_pair(b, 0) + ":"@ + lower_pair(b, 1) + ":"@ + lower_pair(b, 2) + ":"@ + lower_pair(b, 3) + ":"@
        + lower_pair(b, 4) + ":"@ + lower_pair(b, 5)
}

fn pair_at(b: &[u8], i: usize) -> (r: Option<String>)
    requires
        b@.len() == 12,
        i < 6,
    ensures
        match r {
            Some(t) => valid_utf8(pair_of(b@, i as int)) && t@ == lower_pair(b@, i as int),
            None => !valid_utf8(pair_of(b@, i as int)),
        },
{
    let two = copy_range(b, 2 * i, 2 * i + 2);
    match utf8(&two) {
        Some(t) => {
            proof {
                encode_utf8_decode_utf8(t@);
            }
            Some(to_lower(t.as_str()))
        },
        None => None,
    }
}

/// Writes a text of twelve bytes as an address.
pub fn pair_up(s: &str) -> (r: Option<String>)
    ensures
        match r {
            Some(mac) => pairs_up(s@) && mac@ == paired(encode_utf8(s@)),
            None => !pairs_up(s@),
        },
{
    let b = s.as_bytes();
    if b.len() != 12 {
        return None;
    }
    match (pair_at(b, 0), pair_at(b, 1), pair_at(b, 2), pair_at(b, 3), pair_at(b, 4), pair_at(b, 5)) {
        (Some(p0), Some(p1), Some(p2), Some(p3), Some(p4), Some(p5)) => {
            let mut out = p0;
            out.append(":");
            out.append(p1.as_str());
            out.append(":");
            out.append(p2.as_str());
            out.append(":");
            out.append(p3.as_str());
            out.append(":");
            out.append(p4.as_str());
            out.append(":");
            out.append(p5.as_str());
            Some(out)
        },
        _ => {
            assert(!(valid_utf8(pair_of(b@, 0)) && valid_utf8(pair_of(b@, 1)) && valid_utf8(pair_of(b@, 2))
                && valid_utf8(pair_of(b@, 3)) && valid_utf8(pair_of(b@, 4)) && valid_utf8(pair_of(b@, 5))));
            None
        },
    }
}

/// The host's address, from the string the descriptor names: twelve bytes of text, put in pairs.
pub fn host_mac(buf: &[u8]) -> (r: Option<String>)
    requires
        is_string(buf@) ==> buf@[0] >= 2,
    ensures
        match r {
            Some(mac) => is_string(buf@) && exists|s: Seq<char>| #[trigger] utf16_of(s) == string_units(buf@)
                && pairs_up(s) && mac@ == paired(encode_utf8(s)),
            None => !is_string(buf@) || forall|s: Seq<char>| #[trigger] utf16_of(s) == string_units(buf@)
                ==> !pairs_up(s),
        },
{
    if buf.len() < 2 || buf[1] != 3 {
        return None;
    }
    let end: usize = if (buf[0] as usize) < buf.len() { buf[0] as usize } else { buf.len() };
    let n: usize = (end - 2) / 2;
    let mut units: Vec<u16> = Vec::new();
    let mut i: usize = 0;
    while i < n
        invariant
            i <= n,
            2 + 2 * n <= end <= buf@.len(),
            buf@.len() == buf.len(),
            units@.len() == i,
            forall|j: int| 0 <= j < i ==> #[trigger] units@[j] == u16_le(buf@, 2 + 2 * j),
        decreases n - i,
    {
        units.push(get_le16(buf, 2 + 2 * i));
        i += 1;
    }
    assert(units@ =~= string_units(buf@));
    match utf16(&units) {
        Some(text) => {
            proof {
                assert forall|s: Seq<char>| #[trigger] utf16_of(s) == string_units(buf@) implies s == text@ by {
                    utf16_is_unique(s, text@);
                }
            }
            pair_up(text.as_str())
        },
        None => None,
    }
}

/// The name of the profile that keeps a link to link-local addresses, and the address it is bound
/// to: the interface's own, in upper case, without colons in the name.
pub fn profile_name(address: &str) -> (r: (String, String))
    ensures
        r.0@ == uppercase(trim(address@)),
        r.1@ == "livi-carkit-"@ + no_colons(uppercase(trim(address@))),
{
    let mac = to_upper(trimmed(address).as_str());
    let chars = chars_of(mac.as_str());
    let mut bare = String::new();
    let mut i: usize = 0;
    assert(bare@ =~= no_colons(chars@.take(0)));
    while i < chars.len()
        invariant
            i <= chars@.len(),
            bare@ == no_colons(chars@.take(i as int)),
        decreases chars@.len() - i,
    {
        assert(chars@.take(i + 1).drop_last() =~= chars@.take(i as int));
        if chars[i] != ':' {
            bare.push(chars[i]);
        }
        i += 1;
    }
    assert(chars@.take(i as int) =~= chars@);
    let mut name = "livi-carkit-".to_owned();
    name.append(bare.as_str());
    (mac, name)
}

/// A text without its colons.
pub open spec fn no_colons(s: Seq<char>) -> Seq<char>
    decreases s.len(),
{
    if s.len() == 0 {
        Seq::empty()
    } else if s.last() == ':' {
        no_colons(s.drop_last())
    } else {
        no_colons(s.drop_last()).push(s.last())
    }
}

/// Of the bulk endpoints of a direction the last one counts, the highest bit of an address telling
/// inward from outward, and none counts where there is none.
pub proof fn the_last_bulk_endpoint_counts(front: Seq<EndpointInfo>, e: EndpointInfo, back: Seq<EndpointInfo>)
    requires
        forall|k: int| 0 <= k < back.len() ==> !((#[trigger] back[k]).bulk && (back[k].address >= 0x80) == (e.address >= 0x80)),
    ensures
        e.bulk ==> last_bulk(front + seq![e] + back, e.address >= 128) == e.address,
        !e.bulk ==> last_bulk(front + seq![e] + back, e.address >= 128) == last_bulk(front, e.address >= 128),
        last_bulk(Seq::empty(), e.address >= 128) == 0,
    decreases back.len(),
{
    let s = front + seq![e] + back;
    if back.len() == 0 {
        assert(s.last() == e);
        assert(s.drop_last() =~= front);
    } else {
        assert(s.last() == back[back.len() - 1]);
        assert(s.drop_last() =~= front + seq![e] + back.drop_last());
        assert forall|k: int| 0 <= k < back.drop_last().len() implies !((#[trigger] back.drop_last()[k]).bulk
            && (back.drop_last()[k].address >= 0x80) == (e.address >= 0x80)) by {
            assert(back.drop_last()[k] == back[k]);
        }
        the_last_bulk_endpoint_counts(front, e, back.drop_last());
    }
}

/// The control interface of a setting is the last one of class two and subclass thirteen up to it.
pub proof fn the_last_control_interface_counts(front: Seq<AltSetting>, c: AltSetting, back: Seq<AltSetting>)
    requires
        forall|k: int| 0 <= k < back.len() ==> !((#[trigger] back[k]).class == 2 && back[k].subclass == 13),
    ensures
        c.class == 2 && c.subclass == 13 ==> control_of(front + seq![c] + back) == Some(c.number),
        !(c.class == 2 && c.subclass == 13) ==> control_of(front + seq![c] + back) == control_of(front),
        control_of(Seq::empty()) is None,
    decreases back.len(),
{
    let s = front + seq![c] + back;
    if back.len() == 0 {
        assert(s.last() == c);
        assert(s.drop_last() =~= front);
    } else {
        assert(s.last() == back[back.len() - 1]);
        assert(s.drop_last() =~= front + seq![c] + back.drop_last());
        assert forall|k: int| 0 <= k < back.drop_last().len() implies !((#[trigger] back.drop_last()[k]).class == 2
            && back.drop_last()[k].subclass == 13) by {
            assert(back.drop_last()[k] == back[k]);
        }
        the_last_control_interface_counts(front, c, back.drop_last());
    }
}

/// A data interface of class ten with bulk endpoints both ways makes a function with the control interface
/// in front of it, and anything else makes none.
pub proof fn what_makes_a_function(alts: Seq<AltSetting>, i: int)
    requires
        0 <= i < alts.len(),
    ensures
        ({
            let a = alts[i];
            let control = control_of(alts.take(i + 1));
            let (inward, outward) = (last_bulk(a.endpoints@, true), last_bulk(a.endpoints@, false));
            function_at(alts, i) == (if a.class == 10 && control is Some && inward != 0 && outward != 0 {
                Some(NcmFunction { control: control->0, data: a.number, ep_in: inward, ep_out: outward })
            } else {
                None
            })
        }),
{
}

/// The descriptors of a list one after the other.
pub open spec fn chain(list: Seq<Seq<u8>>) -> Seq<u8>
    decreases list.len(),
{
    if list.len() == 0 { Seq::empty() } else { chain(list.drop_last()) + list.last() }
}

/// Whether every descriptor begins with its own length.
pub open spec fn measured(list: Seq<Seq<u8>>) -> bool {
    forall|k: int| 0 <= k < list.len() ==> 4 <= (#[trigger] list[k]).len() < 256 && list[k][0] == list[k].len()
}

/// The interface the descriptors behind some belong to: the one that was named last.
pub open spec fn owner(list: Seq<Seq<u8>>) -> int
    decreases list.len(),
{
    if list.len() == 0 {
        -1
    } else if list.last()[1] == 4 {
        list.last()[2] as int
    } else {
        owner(list.drop_last())
    }
}

/// Whether a descriptor is the Ethernet one of the control interface.
pub open spec fn names_address(list: Seq<Seq<u8>>, k: int, control: u8) -> bool {
    list[k][1] == 0x24 && list[k][2] == 0x0f && owner(list.take(k)) == control
}

/// The string is named by the first Ethernet descriptor that stands behind the control interface's own
/// descriptor, in front of the next interface, and there is none where no such descriptor is.
pub proof fn the_address_string_is_found(list: Seq<Seq<u8>>, control: u8, k: int)
    requires
        measured(list),
        0 <= k <= list.len(),
        forall|j: int| 0 <= j < k ==> !#[trigger] names_address(list, j, control),
        k < list.len() ==> names_address(list, k, control),
    ensures
        mac_string(chain(list), 0, -1, control) == (if k < list.len() { list[k][3] } else { 0 }),
        walkable(chain(list), 0, -1, control),
{
    assert(list.take(0).len() == 0);
    walked(list, control, k, 0);
}

proof fn chain_at(list: Seq<Seq<u8>>, i: int)
    requires
        0 <= i < list.len(),
    ensures
        chain(list.take(i)).len() + list[i].len() == chain(list.take(i + 1)).len(),
        chain(list.take(i + 1)).len() <= chain(list).len(),
        chain(list).subrange(chain(list.take(i)).len() as int, chain(list.take(i + 1)).len() as int) == list[i],
    decreases list.len(),
{
    assert(list.take(i + 1).drop_last() =~= list.take(i));
    assert(list.take(i + 1).last() == list[i]);
    let whole = chain(list);
    let (a, b) = (chain(list.take(i)).len() as int, chain(list.take(i + 1)).len() as int);
    if i == list.len() - 1 {
        assert(list.take(i + 1) =~= list);
        assert(list.drop_last() =~= list.take(i));
        assert(whole.subrange(a, b) =~= list[i]);
    } else {
        let front = list.drop_last();
        chain_at(front, i);
        assert(front.take(i) =~= list.take(i));
        assert(front.take(i + 1) =~= list.take(i + 1));
        assert(whole.subrange(a, b) =~= chain(front).subrange(a, b));
    }
}

proof fn walked(list: Seq<Seq<u8>>, control: u8, k: int, i: int)
    requires
        measured(list),
        0 <= i <= k <= list.len(),
        forall|j: int| 0 <= j < k ==> !#[trigger] names_address(list, j, control),
        k < list.len() ==> names_address(list, k, control),
    ensures
        ({
            let raw = chain(list);
            let at = chain(list.take(i)).len() as int;
            let current = owner(list.take(i));
            &&& mac_string(raw, at, current, control) == (if k < list.len() { list[k][3] } else { 0 })
            &&& walkable(raw, at, current, control)
        }),
    decreases k - i,
{
    let raw = chain(list);
    let at = chain(list.take(i)).len() as int;
    let current = owner(list.take(i));
    if i == list.len() {
        assert(list.take(i) =~= list);
    } else {
        chain_at(list, i);
        let d = list[i];
        let next = chain(list.take(i + 1)).len() as int;
        assert(raw.subrange(at, next) == d);
        assert(raw.subrange(at, next)[0] == raw[at] && raw.subrange(at, next)[1] == raw[at + 1]
            && raw.subrange(at, next)[2] == raw[at + 2] && raw.subrange(at, next)[3] == raw[at + 3]);
        assert(list.take(i + 1).drop_last() =~= list.take(i));
        assert(list.take(i + 1).last() == d);
        if i < k {
            assert(!names_address(list, i, control));
            walked(list, control, k, i + 1);
        }
    }
}

/// The parts of a path that name something are kept in order, empty ones and the place itself left out.
pub proof fn a_path_is_its_names(pieces: Seq<Seq<char>>)
    ensures
        solid(pieces) == pieces.filter(|p: Seq<char>| p != ""@ && p != "."@),
    decreases pieces.len(),
{
    reveal(Seq::filter);
    if pieces.len() > 0 {
        a_path_is_its_names(pieces.drop_last());
    } else {
        assert(solid(pieces) =~= pieces.filter(|p: Seq<char>| p != ""@ && p != "."@));
    }
}

/// What lies in a directory lies below it, and so does the directory itself.
pub proof fn what_lies_below(root: Seq<char>, rest: Seq<char>)
    requires
        root.len() > 0,
        root[0] == '/',
    ensures
        below(root, root),
        below(root + seq!['/'] + rest, root),
{
    reveal_strlit("/");
    let path = root + seq!['/'] + rest;
    assert("/"@ =~= seq!['/']);
    assert(path.take(1) =~= "/"@);
    assert(root.take(1) =~= "/"@);
    splits_behind(root, rest, '/');
    solid_sum(split_on(root, '/'), split_on(rest, '/'));
    let a = path_parts(root);
    let b = solid(split_on(rest, '/'));
    assert(path_parts(path) =~= a + b);
    assert((a + b).subrange(0, a.len() as int) =~= a);
    assert(a.subrange(0, a.len() as int) =~= a);
}

proof fn splits_behind(a: Seq<char>, b: Seq<char>, c: char)
    ensures
        split_on(a + seq![c] + b, c) == split_on(a, c) + split_on(b, c),
    decreases a.len(),
{
    crate::text::first_bounds(a, c);
    let s = a + seq![c] + b;
    let i = crate::text::first(a, c) as int;
    assert forall|j: int| 0 <= j < i implies s[j] != c by {
        assert(s[j] == a[j]);
    }
    if i < a.len() {
        assert(s[i] == c);
        crate::text::first_at(s, c, i);
        let tail = a.skip(i + 1);
        assert(s.skip(i + 1) =~= tail + seq![c] + b);
        assert(s.take(i) =~= a.take(i));
        splits_behind(tail, b, c);
        assert(split_on(s, c) =~= split_on(a, c) + split_on(b, c));
    } else {
        assert(s[i] == c);
        crate::text::first_at(s, c, i);
        assert(s.take(i) =~= a);
        assert(s.skip(i + 1) =~= b);
    }
}

proof fn solid_sum(a: Seq<Seq<char>>, b: Seq<Seq<char>>)
    ensures
        solid(a + b) == solid(a) + solid(b),
    decreases b.len(),
{
    if b.len() == 0 {
        assert(a + b =~= a);
        assert(solid(a + b) =~= solid(a) + solid(b));
    } else {
        assert((a + b).drop_last() =~= a + b.drop_last());
        assert((a + b).last() == b.last());
        solid_sum(a, b.drop_last());
        assert(solid(a + b) =~= solid(a) + solid(b));
    }
}

/// Of the interfaces of the machine the first one the kernel's driver made for a device is taken.
pub proof fn the_first_kernel_interface_is_taken(list: Seq<NetEntry>, root: Seq<char>)
    ensures
        ({
            let at = kernel_place(list, root) as int;
            &&& at <= list.len()
            &&& at < list.len() ==> (list[at].driver matches Some(d) && d@ == "cdc_ncm"@)
                && (list[at].device matches Some(p) && below(p@, root))
            &&& forall|j: int| 0 <= j < at ==> !((#[trigger] list[j]).driver matches Some(d) && d@ == "cdc_ncm"@)
                || !(list[j].device matches Some(p) && below(p@, root))
        }),
    decreases list.len(),
{
    let at = kernel_place(list, root) as int;
    if list.len() > 0 && !made_for(list[0], root) {
        let tail = list.skip(1);
        the_first_kernel_interface_is_taken(tail, root);
        assert forall|j: int| 0 <= j < at implies !((#[trigger] list[j]).driver matches Some(d) && d@ == "cdc_ncm"@)
            || !(list[j].device matches Some(p) && below(p@, root)) by {
            if j > 0 {
                assert(list[j] == tail[j - 1]);
            }
        }
        if at < list.len() {
            assert(list[at] == tail[at - 1]);
        }
    }
}

/// A string descriptor gives its units, two bytes each behind its head, least significant first, as many
/// as its first byte leaves room for and as there are.
pub proof fn a_string_gives_its_units(buf: Seq<u8>, i: int)
    requires
        buf.len() >= 2,
    ensures
        ({
            let end = if buf[0] < buf.len() { buf[0] as int } else { buf.len() as int };
            let u = string_units(buf);
            &&& end >= 2 ==> u.len() == (end - 2) / 2
            &&& end < 2 ==> u.len() == 0
            &&& 0 <= i < u.len() ==> u[i] == buf[2 + 2 * i] + 256 * buf[3 + 2 * i]
        }),
{
}

/// An address is its six pairs with colons between, in their order.
pub proof fn an_address_is_its_pairs(b: Seq<u8>)
    ensures
        paired(b) == crate::text::join(
            seq![lower_pair(b, 0), lower_pair(b, 1), lower_pair(b, 2), lower_pair(b, 3), lower_pair(b, 4), lower_pair(b, 5)],
            seq![':'],
        ),
{
    reveal_strlit(":");
    assert(":"@ =~= seq![':']);
    let p = seq![lower_pair(b, 0), lower_pair(b, 1), lower_pair(b, 2), lower_pair(b, 3), lower_pair(b, 4), lower_pair(b, 5)];
    let c = seq![':'];
    assert(p.drop_last() =~= p.take(5));
    assert(p.take(5).drop_last() =~= p.take(4));
    assert(p.take(4).drop_last() =~= p.take(3));
    assert(p.take(3).drop_last() =~= p.take(2));
    assert(p.take(2).drop_last() =~= p.take(1));
    assert(crate::text::join(p.take(1), c) == p[0]);
    assert(crate::text::join(p.take(2), c) == p[0] + c + p[1]);
    assert(crate::text::join(p.take(3), c) == p[0] + c + p[1] + c + p[2]);
    assert(crate::text::join(p.take(4), c) == p[0] + c + p[1] + c + p[2] + c + p[3]);
    assert(crate::text::join(p.take(5), c) == p[0] + c + p[1] + c + p[2] + c + p[3] + c + p[4]);
}

/// A text without its colons is what is left of it, in order.
pub proof fn only_colons_go(s: Seq<char>)
    ensures
        no_colons(s) == s.filter(|c: char| c != ':'),
    decreases s.len(),
{
    reveal(Seq::filter);
    if s.len() > 0 {
        only_colons_go(s.drop_last());
    } else {
        assert(no_colons(s) =~= s.filter(|c: char| c != ':'));
    }
}

} // verus!
