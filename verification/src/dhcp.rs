//! The dongle's DHCPv4 server: a small pool behind one interface, handed out in turn.

use vstd::prelude::*;
use vstd::arithmetic::div_mod::lemma_fundamental_div_mod;
use vstd::arithmetic::div_mod::lemma_fundamental_div_mod_converse;

use crate::bytes::{append, append_zeros, copy_range, same, zeros};
use crate::text::{pieces, read_unsigned, split_on, unsigned, views};

verus! {

/// Where the server listens.
pub const SERVER_PORT: u16 = 67;
/// Where a client takes the replies.
pub const CLIENT_PORT: u16 = 68;

pub const DHCP_MAGIC: [u8; 4] = [99, 130, 83, 99];
pub const OPT_MSGTYPE: u8 = 53;
pub const OPT_SUBNET: u8 = 1;
pub const OPT_HOSTNAME: u8 = 12;
pub const OPT_LEASE: u8 = 51;
pub const OPT_SERVER: u8 = 54;
pub const OPT_END: u8 = 255;

pub const MSG_DISCOVER: u8 = 1;
pub const MSG_OFFER: u8 = 2;
pub const MSG_REQUEST: u8 = 3;
pub const MSG_ACK: u8 = 5;

/// `livi-link`, the name every client is given.
pub const HOST_LABEL: [u8; 9] = [108, 105, 118, 105, 45, 108, 105, 110, 107];

/// Who was given which last octet, and which octet comes next.
pub struct Leases {
    pub entries: Vec<([u8; 6], u8)>,
    pub next: u8,
    pub pool_start: u8,
    pub pool_end: u8,
}

/// How many addresses the pool holds. A pool that ends before it starts holds one.
pub open spec fn pool_size(start: u8, end: u8) -> int {
    if end >= start { end - start + 1 } else { 1 }
}

/// The last octet the `k`th newcomer gets.
pub open spec fn octet(start: u8, end: u8, k: int) -> u8 {
    (start + k % pool_size(start, end)) as u8
}

/// Which entry belongs to a hardware address, or the length where none does.
pub open spec fn entry_of(entries: Seq<([u8; 6], u8)>, mac: Seq<u8>) -> nat
    decreases entries.len(),
{
    if entries.len() == 0 || entries[0].0@ == mac { 0 } else { 1 + entry_of(entries.skip(1), mac) }
}

/// The last octet an address has or would be given.
pub open spec fn lease(l: Leases, mac: Seq<u8>) -> u8 {
    octet(l.pool_start, l.pool_end, entry_of(l.entries@, mac) as int)
}

proof fn entry_bounds(entries: Seq<([u8; 6], u8)>, mac: Seq<u8>)
    ensures
        entry_of(entries, mac) <= entries.len(),
        entry_of(entries, mac) < entries.len() ==> entries[entry_of(entries, mac) as int].0@ == mac,
        forall|j: int| 0 <= j < entry_of(entries, mac) ==> entries[j].0@ != mac,
    decreases entries.len(),
{
    if entries.len() > 0 && entries[0].0@ != mac {
        entry_bounds(entries.skip(1), mac);
        assert forall|j: int| 0 <= j < entry_of(entries, mac) implies entries[j].0@ != mac by {
            if j > 0 {
                assert(entries.skip(1)[j - 1] == entries[j]);
            }
        }
    }
}

/// An entry that is found at a place behind others that do not match is the one.
proof fn entry_found(entries: Seq<([u8; 6], u8)>, mac: Seq<u8>, k: int)
    requires
        0 <= k <= entries.len(),
        forall|j: int| 0 <= j < k ==> entries[j].0@ != mac,
        k < entries.len() ==> entries[k].0@ == mac,
    ensures
        entry_of(entries, mac) == k,
{
    entry_bounds(entries, mac);
    let e = entry_of(entries, mac) as int;
    if e < k {
        assert(entries[e].0@ == mac);
    }
    if e > k {
        assert(entries[k].0@ != mac);
    }
}

proof fn step_mod(k: int, size: int)
    requires
        k >= 0,
        size >= 1,
    ensures
        0 <= k % size < size,
        (k + 1) % size == (if k % size == size - 1 { 0 } else { k % size + 1 }),
{
    lemma_fundamental_div_mod(k, size);
    let q = k / size;
    let r = k % size;
    assert(0 <= r < size) by (nonlinear_arith)
        requires r == k % size, size >= 1;
    if r == size - 1 {
        assert(k + 1 == (q + 1) * size + 0) by (nonlinear_arith)
            requires k == size * q + r, r == size - 1;
        lemma_fundamental_div_mod_converse(k + 1, size, q + 1, 0);
    } else {
        assert(k + 1 == q * size + (r + 1)) by (nonlinear_arith)
            requires k == size * q + r;
        lemma_fundamental_div_mod_converse(k + 1, size, q, r + 1);
    }
}

impl Leases {
    /// Newcomers got the octets of the pool in turn, and nobody has two.
    pub open spec fn wf(&self) -> bool {
        &&& self.next == octet(self.pool_start, self.pool_end, self.entries@.len() as int)
        &&& forall|k: int| 0 <= k < self.entries@.len() ==>
            #[trigger] self.entries@[k].1 == octet(self.pool_start, self.pool_end, k)
        &&& forall|j: int, k: int| 0 <= j < k < self.entries@.len() ==>
            #[trigger] self.entries@[j].0@ != #[trigger] self.entries@[k].0@
    }

    /// Nothing handed out yet.
    pub fn new(pool_start: u8, pool_end: u8) -> (r: Self)
        ensures
            r.wf(),
            r.entries@ == Seq::<([u8; 6], u8)>::empty(),
            r.pool_start == pool_start,
            r.pool_end == pool_end,
    {
        proof {
            step_mod(0, pool_size(pool_start, pool_end));
            lemma_fundamental_div_mod_converse(0, pool_size(pool_start, pool_end), 0, 0);
        }
        Leases { entries: Vec::new(), next: pool_start, pool_start, pool_end }
    }

    /// The octet a client has, or the next one of the pool for a newcomer, who then has it.
    pub fn assign(&mut self, mac: [u8; 6]) -> (ip: u8)
        requires
            old(self).wf(),
        ensures
            final(self).wf(),
            ip == lease(*old(self), mac@),
            final(self).pool_start == old(self).pool_start,
            final(self).pool_end == old(self).pool_end,
            entry_of(old(self).entries@, mac@) < old(self).entries@.len()
                ==> final(self).entries@ == old(self).entries@,
            entry_of(old(self).entries@, mac@) == old(self).entries@.len()
                ==> final(self).entries@ == old(self).entries@.push((mac, ip)),
    {
        let mut i: usize = 0;
        while i < self.entries.len()
            invariant
                *self == *old(self),
                i <= self.entries@.len(),
                self.wf(),
                forall|j: int| 0 <= j < i ==> self.entries@[j].0@ != mac@,
            decreases self.entries@.len() - i,
        {
            if same(&self.entries[i].0, &mac) {
                proof {
                    entry_found(self.entries@, mac@, i as int);
                }
                return self.entries[i].1;
            }
            i += 1;
        }
        proof {
            entry_found(self.entries@, mac@, i as int);
            step_mod(self.entries@.len() as int, pool_size(self.pool_start, self.pool_end));
        }
        let ip: u8 = self.next;
        self.next = if self.next >= self.pool_end { self.pool_start } else { self.next + 1 };
        self.entries.push((mac, ip));
        ip
    }
}

/// Every octet handed out lies in the pool.
pub proof fn leases_stay_in_the_pool(l: Leases, mac: Seq<u8>)
    requires
        l.pool_start <= l.pool_end,
    ensures
        l.pool_start <= lease(l, mac) <= l.pool_end,
{
    step_mod(entry_of(l.entries@, mac) as int, pool_size(l.pool_start, l.pool_end));
}

/// As long as the pool has room for every client, no two of them share an octet.
pub proof fn leases_differ_while_the_pool_lasts(l: Leases, j: int, k: int)
    requires
        l.wf(),
        0 <= j < k < l.entries@.len(),
        l.entries@.len() <= pool_size(l.pool_start, l.pool_end),
    ensures
        l.entries@[j].1 != l.entries@[k].1,
{
    let size = pool_size(l.pool_start, l.pool_end);
    lemma_fundamental_div_mod_converse(j, size, 0, j);
    lemma_fundamental_div_mod_converse(k, size, 0, k);
}

/// A client that was given an octet keeps it, whoever asks in between.
pub proof fn a_client_keeps_its_lease(before: Leases, after: Leases, mac: Seq<u8>)
    requires
        before.wf(),
        after.wf(),
        entry_of(before.entries@, mac) < before.entries@.len(),
        before.entries@.is_prefix_of(after.entries@),
        before.pool_start == after.pool_start,
        before.pool_end == after.pool_end,
    ensures
        lease(after, mac) == lease(before, mac),
{
    entry_bounds(before.entries@, mac);
    let k = entry_of(before.entries@, mac) as int;
    assert forall|j: int| 0 <= j <= k implies after.entries@[j] == before.entries@[j] by {
        assert(after.entries@.take(before.entries@.len() as int)[j] == after.entries@[j]);
    }
    entry_found(after.entries@, mac, k);
}

/// The options of a packet from a place on, each with its code and its value, up to the end
/// mark or the first one that does not fit.
pub open spec fn options(pkt: Seq<u8>, i: int) -> Seq<(u8, Seq<u8>)>
    decreases pkt.len() - i,
{
    if i < 0 || i >= pkt.len() || pkt[i] == OPT_END {
        Seq::empty()
    } else if pkt[i] == 0 {
        options(pkt, i + 1)
    } else if i + 2 > pkt.len() || i + 2 + pkt[i + 1] > pkt.len() {
        Seq::empty()
    } else {
        seq![(pkt[i], pkt.subrange(i + 2, i + 2 + pkt[i + 1]))] + options(pkt, i + 2 + pkt[i + 1])
    }
}

/// The message type the options name last, or zero.
pub open spec fn type_in(opts: Seq<(u8, Seq<u8>)>) -> u8
    decreases opts.len(),
{
    if opts.len() == 0 {
        0
    } else if opts.last().0 == OPT_MSGTYPE && opts.last().1.len() > 0 {
        opts.last().1[0]
    } else {
        type_in(opts.drop_last())
    }
}

/// The message type of a packet.
pub open spec fn type_of(pkt: Seq<u8>) -> u8 {
    type_in(options(pkt, 240))
}

/// Whether a packet is a request this server answers: a client's, with the magic, that
/// discovers or requests.
pub open spec fn answerable(pkt: Seq<u8>) -> bool {
    &&& pkt.len() >= 240
    &&& pkt.subrange(236, 240) == DHCP_MAGIC@
    &&& pkt[0] == 1
    &&& (type_of(pkt) == MSG_DISCOVER || type_of(pkt) == MSG_REQUEST)
}

proof fn type_of_more(seen: Seq<(u8, Seq<u8>)>, next: (u8, Seq<u8>), rest: Seq<(u8, Seq<u8>)>)
    ensures
        seen + (seq![next] + rest) == seen.push(next) + rest,
        type_in(seen.push(next)) == (if next.0 == OPT_MSGTYPE && next.1.len() > 0 { next.1[0] } else { type_in(seen) }),
{
    assert(seen + (seq![next] + rest) =~= seen.push(next) + rest);
    assert(seen.push(next).drop_last() =~= seen);
}

/// The message type of a packet: the options are walked from behind the magic.
pub fn message_type(pkt: &[u8]) -> (t: u8)
    requires
        pkt@.len() >= 240,
    ensures
        t == type_of(pkt@),
{
    let mut t: u8 = 0;
    let mut i: usize = 240;
    let ghost mut seen: Seq<(u8, Seq<u8>)> = Seq::empty();
    assert(seen + options(pkt@, 240) =~= options(pkt@, 240));
    loop
        invariant
            240 <= i <= pkt@.len(),
            seen + options(pkt@, i as int) == options(pkt@, 240),
            t == type_in(seen),
        decreases pkt@.len() - i,
    {
        proof {
            if options(pkt@, i as int).len() == 0 {
                assert(seen + options(pkt@, i as int) =~= seen);
            }
        }
        if i >= pkt.len() {
            return t;
        }
        let code: u8 = pkt[i];
        if code == 0 {
            i += 1;
            continue;
        }
        if code == OPT_END || pkt.len() - i < 2 {
            return t;
        }
        let len: usize = pkt[i + 1] as usize;
        if pkt.len() - i - 2 < len {
            return t;
        }
        proof {
            let next = (code, pkt@.subrange(i + 2, i + 2 + len));
            type_of_more(seen, next, options(pkt@, i + 2 + len));
            seen = seen.push(next);
        }
        if code == OPT_MSGTYPE && len > 0 {
            t = pkt[i + 2];
        }
        i = i + 2 + len;
    }
}

/// The reply: the fixed fields with what it takes over from the request, the magic, the options,
/// and zeros up to 300 bytes. It names no router and no name server.
pub open spec fn reply_bytes(
    xid: Seq<u8>,
    flags: Seq<u8>,
    chaddr: Seq<u8>,
    yiaddr: Seq<u8>,
    server_ip: Seq<u8>,
    msgtype: u8,
) -> Seq<u8> {
    seq![2u8, 1u8, 6u8, 0u8] + xid + zeros(2) + flags + zeros(4) + yiaddr + server_ip + zeros(4)
        + chaddr + zeros(202) + DHCP_MAGIC@
        + seq![OPT_MSGTYPE, 1u8, msgtype]
        + seq![OPT_SERVER, 4u8] + server_ip
        + seq![OPT_LEASE, 4u8, 0u8, 0x01u8, 0x51u8, 0x80u8]
        + seq![OPT_SUBNET, 4u8, 255u8, 255u8, 255u8, 0u8]
        + seq![OPT_HOSTNAME, 9u8] + HOST_LABEL@
        + seq![OPT_END] + zeros(27)
}

fn put_reply(
    xid: &[u8],
    flags: &[u8],
    chaddr: [u8; 6],
    yiaddr: [u8; 4],
    server_ip: [u8; 4],
    msgtype: u8,
) -> (b: Vec<u8>)
    requires
        xid@.len() == 4,
        flags@.len() == 2,
    ensures
        b@ == reply_bytes(xid@, flags@, chaddr@, yiaddr@, server_ip@, msgtype),
{
    let mut b: Vec<u8> = Vec::new();
    append(&mut b, &[2u8, 1u8, 6u8, 0u8]);
    assert(b@ =~= seq![2u8, 1u8, 6u8, 0u8]);
    append(&mut b, xid);
    append_zeros(&mut b, 2);
    append(&mut b, flags);
    append_zeros(&mut b, 4);
    append(&mut b, &yiaddr);
    append(&mut b, &server_ip);
    append_zeros(&mut b, 4);
    append(&mut b, &chaddr);
    append_zeros(&mut b, 202);
    append(&mut b, &DHCP_MAGIC);
    let kind = [OPT_MSGTYPE, 1u8, msgtype];
    assert(kind@ =~= seq![OPT_MSGTYPE, 1u8, msgtype]);
    append(&mut b, &kind);
    let server = [OPT_SERVER, 4u8];
    assert(server@ =~= seq![OPT_SERVER, 4u8]);
    append(&mut b, &server);
    append(&mut b, &server_ip);
    let time = [OPT_LEASE, 4u8, 0u8, 0x01u8, 0x51u8, 0x80u8];
    assert(time@ =~= seq![OPT_LEASE, 4u8, 0u8, 0x01u8, 0x51u8, 0x80u8]);
    append(&mut b, &time);
    let subnet = [OPT_SUBNET, 4u8, 255u8, 255u8, 255u8, 0u8];
    assert(subnet@ =~= seq![OPT_SUBNET, 4u8, 255u8, 255u8, 255u8, 0u8]);
    append(&mut b, &subnet);
    let host = [OPT_HOSTNAME, 9u8];
    assert(host@ =~= seq![OPT_HOSTNAME, 9u8]);
    append(&mut b, &host);
    append(&mut b, &HOST_LABEL);
    let end = [OPT_END];
    assert(end@ =~= seq![OPT_END]);
    append(&mut b, &end);
    append_zeros(&mut b, 27);
    b
}

/// Writes a reply.
pub fn build_reply(
    xid: &[u8],
    flags: &[u8],
    chaddr: [u8; 6],
    yiaddr: [u8; 4],
    server_ip: [u8; 4],
    msgtype: u8,
) -> (b: Vec<u8>)
    requires
        xid@.len() == 4,
        flags@.len() == 2,
    ensures
        b@ == reply_bytes(xid@, flags@, chaddr@, yiaddr@, server_ip@, msgtype),
        b@.len() == 300,
        b@.subrange(16, 20) == yiaddr@,
        b@.subrange(20, 24) == server_ip@,
        options(b@, 240) == seq![
            (53u8, seq![msgtype]),
            (54u8, server_ip@),
            (51u8, seq![0u8, 1u8, 81u8, 128u8]),
            (1u8, seq![255u8, 255u8, 255u8, 0u8]),
            (12u8, seq![108u8, 105u8, 118u8, 105u8, 45u8, 108u8, 105u8, 110u8, 107u8]),
        ],
{
    let b = put_reply(xid, flags, chaddr, yiaddr, server_ip, msgtype);
    proof {
        a_client_reads_the_reply(xid@, flags@, chaddr@, yiaddr@, server_ip@, msgtype);
    }
    b
}

/// What the server sends for one packet.
pub struct Reply {
    pub kind: u8,
    pub address: [u8; 4],
    pub client: [u8; 6],
    /// The subnet broadcast address it goes to.
    pub to: [u8; 4],
    pub port: u16,
    pub data: Vec<u8>,
}

/// The reply to an answerable packet, given the octet its client has.
pub open spec fn reply_to(pkt: Seq<u8>, server: Seq<u8>, last: u8) -> Seq<u8> {
    reply_bytes(
        pkt.subrange(4, 8),
        pkt.subrange(10, 12),
        pkt.subrange(28, 34),
        seq![server[0], server[1], server[2], last],
        server,
        if type_of(pkt) == MSG_DISCOVER { MSG_OFFER } else { MSG_ACK },
    )
}

/// Six bytes out of a packet.
fn six_at(pkt: &[u8], i: usize) -> (r: [u8; 6])
    requires
        i + 6 <= pkt@.len(),
    ensures
        r@ == pkt@.subrange(i as int, i + 6),
{
    let r = [pkt[i], pkt[i + 1], pkt[i + 2], pkt[i + 3], pkt[i + 4], pkt[i + 5]];
    assert(r@ =~= pkt@.subrange(i as int, i + 6));
    r
}

/// Takes one packet: an answerable one is answered with the client's lease, everything else is
/// passed over and leaves the leases alone.
pub fn serve_packet(leases: &mut Leases, server: [u8; 4], pkt: &[u8]) -> (r: Option<Reply>)
    requires
        old(leases).wf(),
    ensures
        final(leases).wf(),
        final(leases).pool_start == old(leases).pool_start,
        final(leases).pool_end == old(leases).pool_end,
        r is Some <==> answerable(pkt@),
        r is None ==> *final(leases) == *old(leases),
        r matches Some(reply) ==> {
            let mac = pkt@.subrange(28, 34);
            let last = lease(*old(leases), mac);
            &&& reply.data@ == reply_to(pkt@, server@, last)
            &&& reply.kind == (if type_of(pkt@) == MSG_DISCOVER { MSG_OFFER } else { MSG_ACK })
            &&& reply.address@ == seq![server[0], server[1], server[2], last]
            &&& reply.client@ == mac
            &&& reply.to@ == seq![server[0], server[1], server[2], 255u8]
            &&& reply.port == CLIENT_PORT
            &&& reply.port == 68
            &&& reply.data@.subrange(4, 8) == pkt@.subrange(4, 8)
            &&& reply.data@.subrange(10, 12) == pkt@.subrange(10, 12)
            &&& reply.data@.subrange(16, 20) == reply.address@
            &&& reply.data@.subrange(20, 24) == server@
            &&& reply.data@.subrange(28, 34) == pkt@.subrange(28, 34)
            &&& options(reply.data@, 240)[0] == (53u8, seq![reply.kind])
            &&& reply.kind == (if type_of(pkt@) == 1 { 2u8 } else { 5u8 })
            &&& entry_of(old(leases).entries@, mac) < old(leases).entries@.len()
                ==> final(leases).entries@ == old(leases).entries@
            &&& entry_of(old(leases).entries@, mac) == old(leases).entries@.len()
                ==> final(leases).entries@ == old(leases).entries@.push((reply.client, last))
        },
{
    if pkt.len() < 240 {
        return None;
    }
    let magic = copy_range(pkt, 236, 240);
    if !same(&magic, &DHCP_MAGIC) {
        return None;
    }
    if pkt[0] != 1 {
        return None;
    }
    let t: u8 = message_type(pkt);
    if t != MSG_DISCOVER && t != MSG_REQUEST {
        return None;
    }
    let client = six_at(pkt, 28);
    let last: u8 = leases.assign(client);
    let address = [server[0], server[1], server[2], last];
    let to = [server[0], server[1], server[2], 255u8];
    assert(address@ =~= seq![server[0], server[1], server[2], last]);
    assert(to@ =~= seq![server[0], server[1], server[2], 255u8]);
    let kind: u8 = if t == MSG_DISCOVER { MSG_OFFER } else { MSG_ACK };
    let xid = copy_range(pkt, 4, 8);
    let flags = copy_range(pkt, 10, 12);
    let data = build_reply(&xid, &flags, client, address, server, kind);
    proof {
        a_client_reads_the_reply(xid@, flags@, client@, address@, server@, kind);
    }
    Some(Reply { kind, address, client, to, port: CLIENT_PORT, data })
}

/// An offer and the acknowledgment that follows it name the same address.
pub proof fn an_offer_is_kept(before: Leases, after: Leases, mac: [u8; 6])
    requires
        before.wf(),
        after.wf(),
        after.pool_start == before.pool_start,
        after.pool_end == before.pool_end,
        after.entries@ == (if entry_of(before.entries@, mac@) < before.entries@.len() {
            before.entries@
        } else {
            before.entries@.push((mac, lease(before, mac@)))
        }),
    ensures
        lease(after, mac@) == lease(before, mac@),
{
    entry_bounds(before.entries@, mac@);
    entry_found(after.entries@, mac@, entry_of(before.entries@, mac@) as int);
}

/// What the daemon serves, and on which interface.
pub struct NetSettings {
    pub iface: String,
    pub server: [u8; 4],
    pub pool_start: u8,
    pub pool_end: u8,
    pub hostname: String,
}

/// One part of a dotted address: up to three digits, no leading zero, at most 255.
pub open spec fn octet_text(s: Seq<char>) -> Option<int> {
    if s.len() == 0 || s.len() > 3 || (s.len() > 1 && s[0] == '0') || s[0] == '+' {
        None
    } else {
        unsigned(s, 10, 255)
    }
}

/// The four bytes a dotted address writes.
pub open spec fn dotted(s: Seq<char>) -> Option<Seq<u8>> {
    let p = split_on(s, '.');
    if p.len() == 4 && octet_text(p[0]) is Some && octet_text(p[1]) is Some
        && octet_text(p[2]) is Some && octet_text(p[3]) is Some {
        Some(seq![
            octet_text(p[0])->0 as u8,
            octet_text(p[1])->0 as u8,
            octet_text(p[2])->0 as u8,
            octet_text(p[3])->0 as u8,
        ])
    } else {
        None
    }
}

fn octet_from(s: &str) -> (r: Option<u8>)
    ensures
        match r {
            Some(v) => octet_text(s@) == Some(v as int),
            None => octet_text(s@) is None,
        },
{
    let n: usize = s.unicode_len();
    if n == 0 || n > 3 || (n > 1 && s.get_char(0) == '0') || s.get_char(0) == '+' {
        return None;
    }
    match read_unsigned(s, 10, 255) {
        Some(v) => Some(v as u8),
        None => None,
    }
}

/// Reads a dotted address.
pub fn read_dotted(s: &str) -> (r: Option<[u8; 4]>)
    ensures
        match r {
            Some(a) => dotted(s@) == Some(a@),
            None => dotted(s@) is None,
        },
{
    let p = pieces(s, '.');
    let ghost v = views(p@);
    assert(v.len() == p@.len());
    if p.len() != 4 {
        return None;
    }
    assert(v[0] == p@[0]@ && v[1] == p@[1]@ && v[2] == p@[2]@ && v[3] == p@[3]@);
    match (
        octet_from(p[0].as_str()),
        octet_from(p[1].as_str()),
        octet_from(p[2].as_str()),
        octet_from(p[3].as_str()),
    ) {
        (Some(a), Some(b), Some(c), Some(d)) => {
            let r = [a, b, c, d];
            assert(r@ =~= dotted(s@)->0);
            Some(r)
        },
        _ => None,
    }
}

/// The text at a place of the arguments, or a fallback.
pub open spec fn arg_or(args: Seq<String>, i: int, fallback: Seq<char>) -> Seq<char> {
    if i < args.len() { args[i]@ } else { fallback }
}

/// The octet an argument writes, or a fallback where it is missing or writes none.
pub open spec fn octet_or(args: Seq<String>, i: int, fallback: u8) -> u8 {
    if i < args.len() && unsigned(args[i]@, 10, 255) is Some {
        unsigned(args[i]@, 10, 255)->0 as u8
    } else {
        fallback
    }
}

fn arg(args: &Vec<String>, i: usize, fallback: &str) -> (r: String)
    ensures
        r@ == arg_or(args@, i as int, fallback@),
{
    if i < args.len() { args[i].clone() } else { fallback.to_owned() }
}

fn octet_arg(args: &Vec<String>, i: usize, fallback: u8) -> (r: u8)
    ensures
        r == octet_or(args@, i as int, fallback),
{
    if i < args.len() {
        match read_unsigned(args[i].as_str(), 10, 255) {
            Some(v) => v as u8,
            None => fallback,
        }
    } else {
        fallback
    }
}

/// The settings an argument list asks for: interface, server address, first and last octet of
/// the pool and host name, each with its default.
pub fn net_settings(args: &Vec<String>) -> (r: NetSettings)
    ensures
        r.iface@ == arg_or(args@, 1, "usb0"@),
        r.server@ == (if 2 < args@.len() && dotted(args@[2]@) is Some {
            dotted(args@[2]@)->0
        } else {
            seq![10u8, 10u8, 10u8, 1u8]
        }),
        r.pool_start == octet_or(args@, 3, 100),
        r.pool_end == octet_or(args@, 4, 149),
        r.hostname@ == arg_or(args@, 5, "livi-link"@),
{
    let fallback = [10u8, 10u8, 10u8, 1u8];
    assert(fallback@ =~= seq![10u8, 10u8, 10u8, 1u8]);
    let server = if 2 < args.len() {
        match read_dotted(args[2].as_str()) {
            Some(a) => a,
            None => fallback,
        }
    } else {
        fallback
    };
    NetSettings {
        iface: arg(args, 1, "usb0"),
        server,
        pool_start: octet_arg(args, 3, 100),
        pool_end: octet_arg(args, 4, 149),
        hostname: arg(args, 5, "livi-link"),
    }
}

/// What a client reads in a reply: the kind of the message, who the server is, how long the lease
/// lasts, the net mask and the host name, in this order and nothing else. The fixed fields carry the
/// request's transaction, flags and hardware address, the address that is given and the server's.
pub proof fn a_client_reads_the_reply(
    xid: Seq<u8>,
    flags: Seq<u8>,
    chaddr: Seq<u8>,
    yiaddr: Seq<u8>,
    server_ip: Seq<u8>,
    msgtype: u8,
)
    requires
        xid.len() == 4,
        flags.len() == 2,
        chaddr.len() == 6,
        yiaddr.len() == 4,
        server_ip.len() == 4,
    ensures
        ({
            let b = reply_bytes(xid, flags, chaddr, yiaddr, server_ip, msgtype);
            &&& b.len() == 300
            &&& b[0] == 2 && b[1] == 1 && b[2] == 6 && b[3] == 0
            &&& b.subrange(4, 8) == xid
            &&& b[8] == 0 && b[9] == 0
            &&& b.subrange(10, 12) == flags
            &&& b.subrange(12, 16) == zeros(4)
            &&& b.subrange(16, 20) == yiaddr
            &&& b.subrange(20, 24) == server_ip
            &&& b.subrange(24, 28) == zeros(4)
            &&& b.subrange(28, 34) == chaddr
            &&& b.subrange(34, 236) == zeros(202)
            &&& b.subrange(236, 240) == seq![99u8, 130u8, 83u8, 99u8]
            &&& options(b, 240) == seq![
                (53u8, seq![msgtype]),
                (54u8, server_ip),
                (51u8, seq![0u8, 1u8, 81u8, 128u8]),
                (1u8, seq![255u8, 255u8, 255u8, 0u8]),
                (12u8, seq![108u8, 105u8, 118u8, 105u8, 45u8, 108u8, 105u8, 110u8, 107u8]),
            ]
        }),
{
    let b = reply_bytes(xid, flags, chaddr, yiaddr, server_ip, msgtype);
    fixed_fields(xid, flags, chaddr, yiaddr, server_ip, msgtype);
    assert(b[240] == 53 && b[241] == 1 && b[242] == msgtype);
    assert(b[243] == 54 && b[244] == 4);
    assert(b.subrange(245, 249) =~= server_ip);
    assert(b[249] == 51 && b[250] == 4);
    assert(b.subrange(251, 255) =~= seq![0u8, 1u8, 81u8, 128u8]);
    assert(b[255] == 1 && b[256] == 4);
    assert(b.subrange(257, 261) =~= seq![255u8, 255u8, 255u8, 0u8]);
    assert(b[261] == 12 && b[262] == 9);
    let host = seq![108u8, 105u8, 118u8, 105u8, 45u8, 108u8, 105u8, 110u8, 107u8];
    assert(b.subrange(263, 272) =~= host);
    assert(b[272] == 255);
    assert(b.subrange(242, 243) =~= seq![msgtype]);
    let none = Seq::<(u8, Seq<u8>)>::empty();
    assert(options(b, 272) == none);
    assert(options(b, 261) =~= seq![(12u8, host)]);
    assert(options(b, 255) =~= seq![(1u8, b.subrange(257, 261))] + options(b, 261));
    assert(options(b, 249) =~= seq![(51u8, b.subrange(251, 255))] + options(b, 255));
    assert(options(b, 243) =~= seq![(54u8, b.subrange(245, 249))] + options(b, 249));
    assert(options(b, 240) =~= seq![(53u8, b.subrange(242, 243))] + options(b, 243));
    assert(options(b, 240) =~= seq![
        (53u8, seq![msgtype]),
        (54u8, server_ip),
        (51u8, seq![0u8, 1u8, 81u8, 128u8]),
        (1u8, seq![255u8, 255u8, 255u8, 0u8]),
        (12u8, host),
    ]);
}

proof fn fixed_fields(xid: Seq<u8>, flags: Seq<u8>, chaddr: Seq<u8>, yiaddr: Seq<u8>, server_ip: Seq<u8>, msgtype: u8)
    requires
        xid.len() == 4,
        flags.len() == 2,
        chaddr.len() == 6,
        yiaddr.len() == 4,
        server_ip.len() == 4,
    ensures
        ({
            let b = reply_bytes(xid, flags, chaddr, yiaddr, server_ip, msgtype);
            &&& b.len() == 300
            &&& b[0] == 2 && b[1] == 1 && b[2] == 6 && b[3] == 0
            &&& b.subrange(4, 8) == xid
            &&& b[8] == 0 && b[9] == 0
            &&& b.subrange(10, 12) == flags
            &&& b.subrange(12, 16) == zeros(4)
            &&& b.subrange(16, 20) == yiaddr
            &&& b.subrange(20, 24) == server_ip
            &&& b.subrange(24, 28) == zeros(4)
            &&& b.subrange(28, 34) == chaddr
            &&& b.subrange(34, 236) == zeros(202)
            &&& b.subrange(236, 240) == seq![99u8, 130u8, 83u8, 99u8]
        }),
{
    let b = reply_bytes(xid, flags, chaddr, yiaddr, server_ip, msgtype);
    assert(b.subrange(4, 8) =~= xid);
    assert(b.subrange(10, 12) =~= flags);
    assert(b.subrange(12, 16) =~= zeros(4));
    assert(b.subrange(16, 20) =~= yiaddr);
    assert(b.subrange(20, 24) =~= server_ip);
    assert(b.subrange(24, 28) =~= zeros(4));
    assert(b.subrange(28, 34) =~= chaddr);
    assert(b.subrange(34, 236) =~= zeros(202));
    assert(b.subrange(236, 240) =~= seq![99u8, 130u8, 83u8, 99u8]);
}

/// Options as a client writes them: the code, the length and the value of each.
pub open spec fn written_options(list: Seq<(u8, Seq<u8>)>) -> Seq<u8>
    decreases list.len(),
{
    if list.len() == 0 {
        Seq::empty()
    } else {
        seq![list[0].0, list[0].1.len() as u8] + list[0].1 + written_options(list.skip(1))
    }
}

/// Whether options can be written: no code is the padding or the end mark, and no value is too long.
pub open spec fn writable(list: Seq<(u8, Seq<u8>)>) -> bool {
    forall|i: int| 0 <= i < list.len() ==> (#[trigger] list[i]).0 != 0 && list[i].0 != 255 && list[i].1.len() <= 255
}

/// Options that were written are read, in their order, whatever stands in front of them and behind
/// the end mark, and padding in front of them is passed over.
pub proof fn options_read_back(head: Seq<u8>, pads: nat, list: Seq<(u8, Seq<u8>)>, more: Seq<u8>)
    requires
        writable(list),
    ensures
        options(head + zeros(pads) + written_options(list) + seq![255u8] + more, head.len() as int) == list,
    decreases pads + list.len(),
{
    let b = head + zeros(pads) + written_options(list) + seq![255u8] + more;
    let i = head.len() as int;
    if pads > 0 {
        let h = head.push(0u8);
        let c = h + zeros((pads - 1) as nat) + written_options(list) + seq![255u8] + more;
        assert(b =~= c);
        assert(b[i] == 0);
        options_read_back(h, (pads - 1) as nat, list, more);
    } else if list.len() == 0 {
        assert(b[i] == 255);
        assert(options(b, i) =~= list);
    } else {
        let (code, value) = list[0];
        let rest = list.skip(1);
        let h = head + seq![code, value.len() as u8] + value;
        let c = h + zeros(0) + written_options(rest) + seq![255u8] + more;
        assert(b =~= c);
        assert forall|j: int| 0 <= j < rest.len() implies (#[trigger] rest[j]).0 != 0 && rest[j].0 != 255
            && rest[j].1.len() <= 255 by {
            assert(rest[j] == list[j + 1]);
        }
        assert(list[0].0 == code && list[0].1 == value);
        options_read_back(h, 0, rest, more);
        assert(b[i] == code);
        assert(b[i + 1] == value.len());
        assert(b.subrange(i + 2, i + 2 + value.len()) =~= value);
        assert(options(b, i) =~= seq![(code, value)] + rest);
        assert(list =~= seq![(code, value)] + rest);
    }
}

/// A request is answered exactly where it is a client's, carries the magic, and its last message type
/// discovers or requests. An offer answers the one and an acknowledgment the other.
pub proof fn what_is_answered(head: Seq<u8>, list: Seq<(u8, Seq<u8>)>, more: Seq<u8>, kind: u8)
    requires
        head.len() == 240,
        writable(list),
        list.len() > 0,
        list.last() == (53u8, seq![kind]),
    ensures
        type_of(head + written_options(list) + seq![255u8] + more) == kind,
        answerable(head + written_options(list) + seq![255u8] + more)
            == (head.subrange(236, 240) == seq![99u8, 130u8, 83u8, 99u8] && head[0] == 1 && (kind == 1 || kind == 3)),
{
    let b = head + written_options(list) + seq![255u8] + more;
    options_read_back(head, 0, list, more);
    assert(head + zeros(0) + written_options(list) + seq![255u8] + more =~= b);
    assert(b.subrange(236, 240) =~= head.subrange(236, 240));
    assert(DHCP_MAGIC@ =~= seq![99u8, 130u8, 83u8, 99u8]);
}

/// Newcomers get the octets of the pool one after the other, the first one first, and behind the last
/// one the first again.
pub proof fn newcomers_take_turns(start: u8, end: u8, k: int)
    requires
        start <= end,
        k >= 0,
    ensures
        octet(start, end, 0) == start,
        octet(start, end, k + 1) == (if octet(start, end, k) == end { start } else { (octet(start, end, k) + 1) as u8 }),
{
    let size = pool_size(start, end);
    step_mod(k, size);
    lemma_fundamental_div_mod_converse(0, size, 0, 0);
}

/// A reply that is built is read as it was meant.
pub proof fn a_built_reply_is_read(
    xid: &[u8],
    flags: &[u8],
    chaddr: [u8; 6],
    yiaddr: [u8; 4],
    server_ip: [u8; 4],
    msgtype: u8,
    b: Vec<u8>,
)
    requires
        call_ensures(build_reply, (xid, flags, chaddr, yiaddr, server_ip, msgtype), b),
        xid@.len() == 4,
        flags@.len() == 2,
    ensures
        b@.len() == 300,
        b@.subrange(4, 8) == xid@,
        b@.subrange(10, 12) == flags@,
        b@.subrange(16, 20) == yiaddr@,
        b@.subrange(20, 24) == server_ip@,
        b@.subrange(28, 34) == chaddr@,
        options(b@, 240) == seq![
            (53u8, seq![msgtype]),
            (54u8, server_ip@),
            (51u8, seq![0u8, 1u8, 81u8, 128u8]),
            (1u8, seq![255u8, 255u8, 255u8, 0u8]),
            (12u8, seq![108u8, 105u8, 118u8, 105u8, 45u8, 108u8, 105u8, 110u8, 107u8]),
        ],
        type_of(b@) == msgtype,
{
    a_client_reads_the_reply(xid@, flags@, chaddr@, yiaddr@, server_ip@, msgtype);
    let o = options(b@, 240);
    let p = o.take(4);
    assert(o.drop_last() =~= p);
    assert(p.drop_last() =~= o.take(3));
    assert(o.take(3).drop_last() =~= o.take(2));
    assert(o.take(2).drop_last() =~= o.take(1));
    assert(type_in(o.take(1)) == msgtype);
    assert(type_in(o.take(2)) == msgtype);
    assert(type_in(o.take(3)) == msgtype);
    assert(type_in(p) == msgtype);
}

/// A dotted address that was written is read back.
pub proof fn a_dotted_address_reads_back(a: u8, b: u8, c: u8, d: u8)
    ensures
        dotted(crate::text::dec(a as nat) + seq!['.'] + (crate::text::dec(b as nat) + seq!['.'] + (crate::text::dec(c as nat)
            + seq!['.'] + crate::text::dec(d as nat)))) == Some(seq![a, b, c, d]),
{
    let (w, x, y, z) = (
        crate::text::dec(a as nat), crate::text::dec(b as nat), crate::text::dec(c as nat), crate::text::dec(d as nat),
    );
    octet_reads(a);
    octet_reads(b);
    octet_reads(c);
    octet_reads(d);
    let t = y + seq!['.'] + z;
    let u = x + seq!['.'] + t;
    let s = w + seq!['.'] + u;
    crate::text::a_piece_is_split_off(w, u, '.');
    crate::text::a_piece_is_split_off(x, t, '.');
    crate::text::a_piece_is_split_off(y, z, '.');
    crate::text::a_piece_is_split_off(z, Seq::empty(), '.');
    assert(split_on(s, '.') =~= seq![w, x, y, z]);
    assert(dotted(s)->0 =~= seq![a, b, c, d]);
}

proof fn octet_reads(n: u8)
    ensures
        octet_text(crate::text::dec(n as nat)) == Some(n as int),
        !crate::text::dec(n as nat).contains('.'),
{
    let s = crate::text::dec(n as nat);
    crate::text::a_number_reads_back(n as nat, 10);
    assert forall|k: int| 0 <= k < s.len() implies s[k] != '.' by {
        crate::text::a_number_is_made_of_digits(n as nat, 10, k);
    }
    short_number(n as nat);
}

proof fn short_number(n: nat)
    requires
        n < 1000,
    ensures
        crate::text::dec(n).len() <= 3,
{
    reveal_with_fuel(crate::text::numeral, 4);
}

} // verus!
