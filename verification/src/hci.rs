//! HCI packets on their way between a Bluetooth controller and a host: the framing on the wire,
//! what is corrected for the host's stack, and what the packets say about the links.

use vstd::prelude::*;
use std::collections::HashSet;

use crate::bytes::{append, be16, get_le16, le16, put_be16, put_le16, u16_le};
use crate::text::{dec, hex2, put_dec, put_hex2};

verus! {

pub const PORT: u16 = 5002;
/// Enough for the largest packet the controller will hand over.
pub const PACKET_MAX: usize = 4096;
/// Marks the driver's own messages rather than controller traffic.
pub const VENDOR_PKT: u8 = 0xff;
/// Vendor packet plus opcode 0, which asks the driver for a primary adapter.
pub const CREATE_PRIMARY: [u8; 2] = [0xff, 0x00];

pub const EVENT: u8 = 0x04;
pub const COMMAND: u8 = 0x01;
pub const COMMAND_COMPLETE: u8 = 0x0e;
pub const READ_LOCAL_COMMANDS: u16 = 0x1002;
pub const READ_VOICE_SETTING: u16 = 0x0c25;
pub const WRITE_VOICE_SETTING: u16 = 0x0c26;
/// The byte of the command list that offers flow control for call audio, and its bit.
pub const SYNC_FLOWCTL_AT: usize = 17;
pub const SYNC_FLOWCTL_BIT: u8 = 0x10;
pub const VOICE_16BIT: u16 = 0x0060;

pub const EV_CONN_COMPLETE: u8 = 0x03;
pub const EV_CONN_REQUEST: u8 = 0x04;
pub const EV_DISCONN_COMPLETE: u8 = 0x05;
pub const LINK_ACL: u8 = 0x01;

/// A packet on the wire: its length in two bytes, most significant first, then the packet.
pub open spec fn framed(pkt: Seq<u8>) -> Seq<u8> {
    be16((pkt.len() % 0x1_0000) as u16) + pkt
}

/// Puts the length in front of a packet, because a stream would otherwise hand the far side two
/// at once.
pub fn frame(pkt: &[u8]) -> (out: Vec<u8>)
    ensures
        out@ == framed(pkt@),
{
    let mut out: Vec<u8> = Vec::new();
    put_be16(&mut out, (pkt.len() % 0x1_0000) as u16);
    assert(out@ =~= be16((pkt@.len() % 0x1_0000) as u16));
    append(&mut out, pkt);
    out
}

/// How many bytes follow a length field, or nothing where the tunnel is to be dropped.
pub fn frame_len(hi: u8, lo: u8) -> (r: Option<usize>)
    ensures
        r == (if 0 < hi * 256 + lo <= PACKET_MAX { Some((hi * 256 + lo) as usize) } else { None }),
{
    let n: usize = hi as usize * 256 + lo as usize;
    if n == 0 || n > PACKET_MAX { None } else { Some(n) }
}

/// Every packet that is not empty and not over the limit comes out of its frame as it went in.
pub proof fn a_frame_gives_its_packet_back(pkt: Seq<u8>)
    requires
        0 < pkt.len() <= PACKET_MAX,
    ensures
        framed(pkt)[0] * 256 + framed(pkt)[1] == pkt.len(),
        framed(pkt).skip(2) == pkt,
{
    assert(framed(pkt).skip(2) =~= pkt);
}

/// Whether a packet completes a command.
pub open spec fn completes(pkt: Seq<u8>, opcode: u16) -> bool {
    pkt.len() >= 7 && pkt[0] == EVENT && pkt[1] == COMMAND_COMPLETE && u16_le(pkt, 4) == opcode
}

/// Whether a packet completes a command.
pub fn answers(pkt: &[u8], opcode: u16) -> (r: bool)
    ensures
        r == completes(pkt@, opcode),
{
    pkt.len() >= 7 && pkt[0] == EVENT && pkt[1] == COMMAND_COMPLETE && get_le16(pkt, 4) == opcode
}

/// Whether a packet is the successful list of commands that may offer flow control.
pub open spec fn lists_commands(pkt: Seq<u8>) -> bool {
    pkt.len() >= 9 && pkt[6] == 0 && completes(pkt, READ_LOCAL_COMMANDS) && pkt.len() > SYNC_FLOWCTL_AT
}

/// Whether a packet is a successful voice setting other than 16 bit.
pub open spec fn wrong_voice(pkt: Seq<u8>) -> bool {
    pkt.len() >= 9 && pkt[6] == 0 && completes(pkt, READ_VOICE_SETTING) && u16_le(pkt, 7) != VOICE_16BIT
}

/// A packet as the host's stack is to see it: without the flow control bit, or with the 16 bit
/// voice setting.
pub open spec fn fitted(pkt: Seq<u8>) -> Seq<u8> {
    if lists_commands(pkt) {
        pkt.update(SYNC_FLOWCTL_AT as int, pkt[SYNC_FLOWCTL_AT as int] & !SYNC_FLOWCTL_BIT)
    } else if wrong_voice(pkt) {
        pkt.update(7, 0x60).update(8, 0x00)
    } else {
        pkt
    }
}

/// The command that sets the 16 bit voice setting.
pub open spec fn voice_order() -> Seq<u8> {
    seq![COMMAND] + le16(WRITE_VOICE_SETTING) + seq![2u8] + le16(VOICE_16BIT)
}

/// Corrects a packet for the host's stack. Returns the order that makes the controller agree with
/// what was corrected.
pub fn fit_to_vhci(pkt: &mut Vec<u8>) -> (r: Option<Vec<u8>>)
    ensures
        final(pkt)@ == fitted(old(pkt)@),
        match r {
            Some(order) => wrong_voice(old(pkt)@) && order@ == voice_order(),
            None => !wrong_voice(old(pkt)@),
        },
{
    if pkt.len() < 9 || pkt[6] != 0 {
        return None;
    }
    if answers(pkt, READ_LOCAL_COMMANDS) && pkt.len() > SYNC_FLOWCTL_AT {
        let was: u8 = pkt[SYNC_FLOWCTL_AT];
        pkt.set(SYNC_FLOWCTL_AT, was & !SYNC_FLOWCTL_BIT);
        return None;
    }
    if answers(pkt, READ_VOICE_SETTING) && get_le16(pkt, 7) != VOICE_16BIT {
        pkt.set(7, 0x60);
        pkt.set(8, 0x00);
        let mut order: Vec<u8> = Vec::new();
        order.push(COMMAND);
        assert(order@ =~= seq![COMMAND]);
        put_le16(&mut order, WRITE_VOICE_SETTING);
        order.push(2);
        put_le16(&mut order, VOICE_16BIT);
        assert(order@ =~= voice_order());
        return Some(order);
    }
    None
}

/// A packet that was corrected needs no further correction, and keeps its length and whatever
/// was not corrected.
pub proof fn correcting_settles(pkt: Seq<u8>)
    ensures
        fitted(pkt).len() == pkt.len(),
        fitted(fitted(pkt)) == fitted(pkt),
        !wrong_voice(fitted(pkt)),
        forall|i: int| 0 <= i < pkt.len() && i != 7 && i != 8 && i != SYNC_FLOWCTL_AT ==>
            #[trigger] fitted(pkt)[i] == pkt[i],
{
    let f = fitted(pkt);
    if lists_commands(pkt) {
        let b = pkt[SYNC_FLOWCTL_AT as int];
        assert((b & !0x10u8) & !0x10u8 == b & !0x10u8) by (bit_vector);
        assert(lists_commands(f));
        assert(fitted(f) =~= f);
    } else if wrong_voice(pkt) {
        assert(f[7] == 0x60 && f[8] == 0);
        assert(!wrong_voice(f));
        assert(!lists_commands(f));
    }
}

/// What to do with a packet that came from the dongle.
pub struct Inbound {
    /// Goes to the host's stack.
    pub deliver: Option<Vec<u8>>,
    /// Goes back to the controller.
    pub order: Option<Vec<u8>>,
}

/// Takes one packet from the dongle. The answer to an order of our own is kept from the host's
/// stack, which never asked for it. Everything else is corrected and delivered.
pub fn inbound(pkt: Vec<u8>, own_orders: &mut u32) -> (r: Inbound)
    requires
        *old(own_orders) < u32::MAX,
    ensures
        ({
            let own = *old(own_orders) > 0 && completes(pkt@, WRITE_VOICE_SETTING);
            &&& match r.deliver {
                Some(d) => !own && d@ == fitted(pkt@),
                None => own,
            }
            &&& match r.order {
                Some(o) => !own && wrong_voice(pkt@) && o@ == framed(voice_order()),
                None => own || !wrong_voice(pkt@),
            }
            &&& *final(own_orders) == *old(own_orders) + (if own {
                -1int
            } else if wrong_voice(pkt@) {
                1
            } else {
                0
            })
        }),
{
    if *own_orders > 0 && answers(&pkt, WRITE_VOICE_SETTING) {
        *own_orders = *own_orders - 1;
        return Inbound { deliver: None, order: None };
    }
    let mut pkt = pkt;
    match fit_to_vhci(&mut pkt) {
        Some(order) => {
            *own_orders = *own_orders + 1;
            Inbound { deliver: Some(pkt), order: Some(frame(&order)) }
        },
        None => Inbound { deliver: Some(pkt), order: None },
    }
}

/// What to do with a packet that came from the host's stack.
#[derive(PartialEq, Eq, Structural, Clone, Copy)]
pub enum Outbound {
    /// The driver's own note that the adapter exists, with its index. It is not HCI.
    Adapter(u16),
    /// A note of the driver that says nothing.
    Ignore,
    /// Goes to the dongle.
    Send,
}

/// Tells the driver's notes from traffic.
pub fn outbound(pkt: &[u8]) -> (r: Outbound)
    requires
        pkt@.len() > 0,
    ensures
        r == (if pkt@[0] != VENDOR_PKT {
            Outbound::Send
        } else if pkt@.len() >= 4 {
            Outbound::Adapter(u16_le(pkt@, 2))
        } else {
            Outbound::Ignore
        }),
{
    if pkt[0] != VENDOR_PKT {
        Outbound::Send
    } else if pkt.len() >= 4 {
        Outbound::Adapter(get_le16(pkt, 2))
    } else {
        Outbound::Ignore
    }
}

/// What a packet makes of the lights: the paging signal and the connection signal, where it
/// changes them.
#[derive(PartialEq, Eq, Structural, Clone, Copy)]
pub struct Signals {
    pub paging: Option<bool>,
    pub connected: Option<bool>,
}

/// The connection an event is about.
pub open spec fn handle_of(pkt: Seq<u8>) -> u16 {
    (u16_le(pkt, 4) % 0x1000) as u16
}

/// Whether a packet is an event of a kind that is long enough to read.
pub open spec fn is_event(pkt: Seq<u8>, code: u8) -> bool {
    pkt.len() >= 6 && pkt[0] == EVENT && pkt[1] == code
}

/// Whether an event is about a data link rather than a call's audio link.
pub open spec fn about_acl(pkt: Seq<u8>) -> bool {
    pkt.len() > 12 && pkt[12] == LINK_ACL
}

/// The open links after a packet.
pub open spec fn links_after(pkt: Seq<u8>, links: Set<u16>) -> Set<u16> {
    if is_event(pkt, EV_CONN_COMPLETE) && pkt[3] == 0 && about_acl(pkt) {
        links.insert(handle_of(pkt))
    } else if is_event(pkt, EV_DISCONN_COMPLETE) && pkt[3] == 0 {
        links.remove(handle_of(pkt))
    } else {
        links
    }
}

/// Keeps the open links, and says what a packet makes of the lights. A phone that asks to come
/// in pages, unless it asks for a call's audio link, which never completes as a connection.
pub fn watch_link(pkt: &[u8], links: &mut HashSet<u16>) -> (r: Signals)
    ensures
        final(links)@ == links_after(pkt@, old(links)@),
        r.paging == (if is_event(pkt@, EV_CONN_REQUEST) && about_acl(pkt@) {
            Some(true)
        } else if is_event(pkt@, EV_CONN_COMPLETE) {
            Some(false)
        } else {
            None
        }),
        r.connected == (if is_event(pkt@, EV_CONN_COMPLETE) && pkt@[3] == 0 && about_acl(pkt@) {
            Some(true)
        } else if is_event(pkt@, EV_DISCONN_COMPLETE) && pkt@[3] == 0
            && links_after(pkt@, old(links)@) == Set::<u16>::empty() {
            Some(false)
        } else {
            None
        }),
{
    broadcast use vstd::std_specs::hash::group_hash_axioms;
    broadcast use vstd::set::group_set_axioms;
    if pkt.len() < 6 || pkt[0] != EVENT {
        return Signals { paging: None, connected: None };
    }
    let handle: u16 = get_le16(pkt, 4) % 0x1000;
    let acl = pkt.len() > 12 && pkt[12] == LINK_ACL;
    let code: u8 = pkt[1];
    if code == EV_CONN_REQUEST {
        return Signals { paging: if acl { Some(true) } else { None }, connected: None };
    }
    if code == EV_CONN_COMPLETE {
        if pkt[3] == 0 && acl {
            links.insert(handle);
            return Signals { paging: Some(false), connected: Some(true) };
        }
        return Signals { paging: Some(false), connected: None };
    }
    if code == EV_DISCONN_COMPLETE && pkt[3] == 0 {
        links.remove(&handle);
        let none = links.is_empty();
        proof {
            if none {
                assert(links@ =~= Set::<u16>::empty());
            }
        }
        return Signals { paging: None, connected: if none { Some(false) } else { None } };
    }
    Signals { paging: None, connected: None }
}

/// What the kernel answers when it takes a packet for no good one.
pub const EINVAL: i32 = 22;

/// What comes of writing a packet to a controller.
#[derive(PartialEq, Eq, Structural, Clone, Copy)]
pub enum Written {
    /// It went out.
    Sent,
    /// The controller refused this one packet, and the tunnel goes on.
    Refused,
    /// The tunnel ends.
    Broken,
}

/// What comes of writing a packet to a controller: whether it went out, and else the number of the
/// error, where it has one.
pub fn written(ok: bool, error: Option<i32>) -> (r: Written)
    ensures
        r == (if ok {
            Written::Sent
        } else if error == Some(EINVAL) {
            Written::Refused
        } else {
            Written::Broken
        }),
{
    if ok {
        return Written::Sent;
    }
    match error {
        Some(e) => if e == EINVAL { Written::Refused } else { Written::Broken },
        None => Written::Broken,
    }
}

/// What the kernel answers when a controller already is in the state it is put in.
pub const EALREADY: i32 = 114;
/// The bit of a controller's flags that says it is up.
pub const HCI_UP: u32 = 1;

/// Whether taking a controller up worked, by the error the kernel gave. One that was up already
/// is no failure.
pub fn up(failed: Option<i32>) -> (r: Result<(), i32>)
    ensures
        r == (match failed {
            Some(e) => if e == EALREADY { Ok::<(), i32>(()) } else { Err::<(), i32>(e) },
            None => Ok::<(), i32>(()),
        }),
{
    settled(failed)
}

/// Whether taking a controller down worked, by the error the kernel gave. One that was down
/// already is no failure.
pub fn down(failed: Option<i32>) -> (r: Result<(), i32>)
    ensures
        r == (match failed {
            Some(e) => if e == EALREADY { Ok::<(), i32>(()) } else { Err::<(), i32>(e) },
            None => Ok::<(), i32>(()),
        }),
{
    settled(failed)
}

fn settled(failed: Option<i32>) -> (r: Result<(), i32>)
    ensures
        r == (match failed {
            Some(e) => if e == EALREADY { Ok::<(), i32>(()) } else { Err::<(), i32>(e) },
            None => Ok::<(), i32>(()),
        }),
{
    match failed {
        Some(e) => if e == EALREADY { Ok(()) } else { Err(e) },
        None => Ok(()),
    }
}

/// Whether a controller is up, by the flags the kernel gave, where it gave any.
pub fn is_up(flags: Option<u32>) -> (r: bool)
    ensures
        r == (flags matches Some(f) && f & HCI_UP != 0),
{
    match flags {
        Some(f) => f & HCI_UP != 0,
        None => false,
    }
}

/// A controller address in lower case, the last byte first.
pub open spec fn mac_lower(b: Seq<u8>) -> Seq<char> {
    hex2(b[5]) + ":"@ + hex2(b[4]) + ":"@ + hex2(b[3]) + ":"@ + hex2(b[2]) + ":"@ + hex2(b[1]) + ":"@ + hex2(b[0])
}

/// A controller address in lower case, the last byte first.
pub fn lower_mac(bdaddr: &[u8; 6]) -> (out: String)
    ensures
        out@ == mac_lower(bdaddr@),
{
    let mut out = String::new();
    put_hex2(&mut out, bdaddr[5]);
    assert(out@ =~= hex2(bdaddr@[5]));
    out.append(":");
    put_hex2(&mut out, bdaddr[4]);
    out.append(":");
    put_hex2(&mut out, bdaddr[3]);
    out.append(":");
    put_hex2(&mut out, bdaddr[2]);
    out.append(":");
    put_hex2(&mut out, bdaddr[1]);
    out.append(":");
    put_hex2(&mut out, bdaddr[0]);
    out
}

/// What kind of controller the kernel says it is: bits four and five of the type byte. Only a
/// primary one is managed.
pub open spec fn kind_name(dev_type: u8) -> Seq<char> {
    let kind = dev_type as int / 16 % 4;
    if kind == 0 { "primary"@ } else if kind == 1 { "amp"@ } else { "?"@ }
}

/// The line that says what came up: the address, the bus in the low bits of the type byte, and
/// the kind.
pub fn up_line(dev: u64, bdaddr: &[u8; 6], dev_type: u8) -> (out: String)
    ensures
        out@ == "livi-bt-up: hci"@ + dec(dev as nat) + " up, MAC "@ + mac_lower(bdaddr@) + ", bus "@
            + dec((dev_type as int % 16) as nat) + ", type "@ + kind_name(dev_type),
{
    let kind: u8 = dev_type / 16 % 4;
    let mut out = "livi-bt-up: hci".to_owned();
    put_dec(&mut out, dev);
    out.append(" up, MAC ");
    out.append(lower_mac(bdaddr).as_str());
    out.append(", bus ");
    put_dec(&mut out, (dev_type % 16) as u64);
    out.append(", type ");
    if kind == 0 {
        out.append("primary");
    } else if kind == 1 {
        out.append("amp");
    } else {
        out.append("?");
    }
    out
}

/// What a packet from the controller is corrected to: in the list of its commands the bit for flow
/// control of call audio is gone, a voice setting is 16 bit, and any other packet is left as it is.
pub proof fn what_is_corrected(pkt: Seq<u8>)
    ensures
        ({
            let done = pkt.len() >= 9 && pkt[0] == 0x04 && pkt[1] == 0x0e && pkt[6] == 0;
            let list = done && pkt[4] == 0x02 && pkt[5] == 0x10 && pkt.len() > 17;
            let voice = done && pkt[4] == 0x25 && pkt[5] == 0x0c;
            &&& list ==> fitted(pkt) == pkt.update(17, pkt[17] & 0xef)
            &&& voice ==> fitted(pkt) == pkt.update(7, 0x60u8).update(8, 0u8)
            &&& !list && !voice ==> fitted(pkt) == pkt
            &&& wrong_voice(pkt) == (voice && !(pkt[7] == 0x60 && pkt[8] == 0))
            &&& voice_order() == seq![0x01u8, 0x26u8, 0x0cu8, 0x02u8, 0x60u8, 0x00u8]
        }),
{
    assert(!0x10u8 == 0xefu8) by (bit_vector);
    assert(voice_order() =~= seq![0x01u8, 0x26u8, 0x0cu8, 0x02u8, 0x60u8, 0x00u8]);
    if pkt.len() >= 9 {
        let (a, b) = (pkt[4] as int, pkt[5] as int);
        assert(u16_le(pkt, 4) == a + 256 * b);
        assert(u16_le(pkt, 7) == pkt[7] + 256 * pkt[8]);
        if pkt[0] == 0x04 && pkt[1] == 0x0e && pkt[6] == 0 && pkt[4] == 0x25 && pkt[5] == 0x0c {
            if pkt[7] == 0x60 && pkt[8] == 0 {
                assert(pkt.update(7, 0x60u8).update(8, 0u8) =~= pkt);
            }
        }
    }
}

/// A command's completion carries the command's number in its fifth and sixth byte, least significant
/// first.
pub proof fn what_a_completion_says(pkt: Seq<u8>, opcode: u16)
    ensures
        completes(pkt, opcode) == (pkt.len() >= 7 && pkt[0] == 0x04 && pkt[1] == 0x0e && pkt[4] + 256 * pkt[5] == opcode),
{
}

/// A data link that came up without an error is open from then on, under the low twelve bits of its
/// number. It is closed again by its disconnection alone. Other links, failed events and call audio
/// links make no difference.
pub proof fn links_open_and_close(pkt: Seq<u8>, links: Set<u16>, other: u16)
    ensures
        ({
            let n = pkt[4] + 256 * (pkt[5] as int % 16);
            let came = pkt.len() > 12 && pkt[0] == 0x04 && pkt[1] == 0x03 && pkt[3] == 0 && pkt[12] == 1;
            let left = pkt.len() >= 6 && pkt[0] == 0x04 && pkt[1] == 0x05 && pkt[3] == 0;
            &&& came && other == n ==> links_after(pkt, links).contains(other)
            &&& left && other == n ==> !links_after(pkt, links).contains(other)
            &&& !came && !left ==> links_after(pkt, links) == links
            &&& other != n ==> links_after(pkt, links).contains(other) == links.contains(other)
        }),
{
    let v = u16_le(pkt, 4) as int;
    let (a, b) = (pkt[4] as int, pkt[5] as int);
    assert(v == a + 256 * b);
    assert((a + 256 * b) % 0x1000 == a + 256 * (b % 16)) by (nonlinear_arith)
        requires
            0 <= a < 256,
            0 <= b < 256,
    ;
}

/// A link that comes up and goes again leaves the links as they were without it.
pub proof fn a_link_that_went_is_forgotten(up: Seq<u8>, gone: Seq<u8>, links: Set<u16>)
    requires
        up.len() > 12,
        gone.len() >= 6,
        up[0] == 0x04 && up[1] == 0x03 && up[3] == 0 && up[12] == 1,
        gone[0] == 0x04 && gone[1] == 0x05 && gone[3] == 0,
        up[4] == gone[4] && up[5] == gone[5],
    ensures
        links_after(gone, links_after(up, links)) == links_after(gone, links),
        !links.contains(handle_of(up)) ==> links_after(gone, links_after(up, links)) == links,
{
    assert(handle_of(up) == handle_of(gone));
    assert(links.insert(handle_of(up)).remove(handle_of(up)) =~= links.remove(handle_of(up)));
    if !links.contains(handle_of(up)) {
        assert(links.remove(handle_of(up)) =~= links);
    }
}

/// A controller address is written with its last byte first: two digits for each byte, sixteens and
/// ones, and a colon behind each but the last.
pub proof fn a_controller_address_is_written_backwards(b: Seq<u8>, i: int)
    requires
        b.len() == 6,
        0 <= i < 6,
    ensures
        mac_lower(b).len() == 17,
        crate::text::digit_value(mac_lower(b)[3 * i]) == Some(b[5 - i] as int / 16),
        crate::text::digit_value(mac_lower(b)[3 * i + 1]) == Some(b[5 - i] as int % 16),
        !('A' <= mac_lower(b)[3 * i] <= 'Z') && !('A' <= mac_lower(b)[3 * i + 1] <= 'Z'),
        i < 5 ==> mac_lower(b)[3 * i + 2] == ':',
{
    reveal_strlit(":");
    reveal(crate::text::digit);
    crate::text::digit_reads(b[5 - i] as int / 16);
    crate::text::digit_reads(b[5 - i] as int % 16);
    let t = mac_lower(b);
    assert(t.len() == 17);
    assert(t[3 * i] == hex2(b[5 - i])[0]);
    assert(t[3 * i + 1] == hex2(b[5 - i])[1]);
}

/// A packet that was put in a frame is announced by the first two bytes of the frame, as long as it is one
/// that is taken: none that is empty and none of more than four kilobytes.
pub proof fn a_frame_announces_its_packet(pkt: &[u8], out: Vec<u8>, r: Option<usize>)
    requires
        call_ensures(frame, (pkt,), out),
        call_ensures(frame_len, (out@[0], out@[1]), r),
        pkt@.len() <= 0xffff,
    ensures
        r == (if 0 < pkt@.len() <= 4096 { Some(pkt@.len() as usize) } else { None }),
        out@.skip(2) == pkt@,
{
    assert(out@.skip(2) =~= pkt@);
}

/// The driver's note of an adapter carries its number in the third and fourth byte. Whatever does not begin
/// as a note goes to the dongle.
pub proof fn notes_are_told_from_traffic(pkt: &[u8], r: Outbound)
    requires
        call_ensures(outbound, (pkt,), r),
        pkt@.len() > 0,
    ensures
        r == Outbound::Send <==> pkt@[0] != 0xff,
        pkt@[0] == 0xff && pkt@.len() >= 4 ==> (r matches Outbound::Adapter(n) && n == pkt@[2] + 256 * pkt@[3]),
        pkt@[0] == 0xff && pkt@.len() < 4 ==> r == Outbound::Ignore,
{
}

/// What a packet makes of the lights, by its bytes: a phone that asks for a data link pages, any completion
/// of a connection ends that, a data link that came up without an error connects, and the last link that goes
/// disconnects.
pub proof fn what_the_lights_are_told(pkt: &[u8], links: Set<u16>)
    ensures
        forall|l: &mut HashSet<u16>, r: Signals| #[trigger] call_ensures(watch_link, (pkt, l), r) && (*l)@ == links ==> {
            let p = pkt@;
            let event = p.len() >= 6 && p[0] == 0x04;
            let data = p.len() > 12 && p[12] == 1;
            let left = (*final(l))@;
            &&& event && p[1] == 0x04 && data ==> r.paging == Some(true) && r.connected is None
            &&& event && p[1] == 0x04 && !data ==> r.paging is None && r.connected is None
            &&& event && p[1] == 0x03 ==> r.paging == Some(false)
            &&& event && p[1] == 0x03 && p[3] == 0 && data ==> r.connected == Some(true)
            &&& event && p[1] == 0x03 && !(p[3] == 0 && data) ==> r.connected is None && left == links
            &&& event && p[1] == 0x05 && p[3] == 0 ==> r.connected == (if left == Set::<u16>::empty() { Some(false) } else { None })
            &&& !event || (p[1] != 0x03 && p[1] != 0x04 && p[1] != 0x05) ==> r.paging is None && r.connected is None && left == links
            &&& left == links_after(p, links)
        },
{
}

/// An order of our own is answered to us: the answer is kept from the host, counted down, and nothing is
/// ordered for it. Every wrong voice setting is corrected and ordered once, and counted up.
pub proof fn orders_and_their_answers_balance(pkt: Vec<u8>, count: u32)
    requires
        count < u32::MAX,
    ensures
        forall|n: &mut u32, r: Inbound| #[trigger] call_ensures(inbound, (pkt, n), r) && *n == count ==> {
            let p = pkt@;
            let done = p.len() >= 7 && p[0] == 0x04 && p[1] == 0x0e && p[4] == 0x26 && p[5] == 0x0c;
            &&& r.deliver is None <==> count > 0 && done
            &&& r.deliver is None ==> *final(n) == count - 1 && r.order is None
            &&& r.deliver matches Some(d) ==> d@ == fitted(p)
            &&& r.order is Some ==> *final(n) == count + 1 && r.deliver is Some && r.order->0@.skip(2)
                == seq![0x01u8, 0x26u8, 0x0cu8, 0x02u8, 0x60u8, 0x00u8] && r.order->0@[0] == 0 && r.order->0@[1] == 6
            &&& r.order is Some <==> wrong_voice(p)
            &&& r.deliver is Some && r.order is None ==> *final(n) == count
        },
{
    what_is_corrected(pkt@);
    assert(framed(voice_order()).skip(2) =~= voice_order());
    if pkt@.len() >= 7 {
        let (a, b) = (pkt@[4] as int, pkt@[5] as int);
        assert(u16_le(pkt@, 4) == a + 256 * b);
    }
}

/// A controller is up by the lowest bit of its flags, and not where it has none.
pub proof fn the_lowest_flag_is_up(flags: u32, r: bool)
    requires
        call_ensures(is_up, (Some(flags),), r),
    ensures
        r == (flags % 2 == 1),
{
    assert((flags & 1 != 0) == (flags % 2 == 1)) by (bit_vector);
}

} // verus!
