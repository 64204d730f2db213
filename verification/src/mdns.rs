//! mDNS for a single name: the answer to `<host>.local` is the address of the interface the query
//! came in on, and an NSEC record says that an address record is all there is.

use vstd::prelude::*;

use crate::bytes::{append, be16, be32, copy_range, get_be16, put_be16, put_be32, u16_be, u32_be};
use vstd::string::StringSliceAdditionalSpecFns;

verus! {

pub const PORT: u16 = 5353;
pub const GROUP: [u8; 4] = [224, 0, 0, 251];
pub const TTL: u32 = 120;
/// An asker on another port gets a short time to live and no cache flush bit.
pub const LEGACY_TTL: u32 = 10;

pub const QTYPE_A: u16 = 1;
pub const QTYPE_AAAA: u16 = 28;
pub const QTYPE_NSEC: u16 = 47;
pub const QTYPE_ANY: u16 = 255;
pub const CLASS_IN: u16 = 1;
/// Set on an answer so listeners replace what they cached.
pub const CACHE_FLUSH: u16 = 0x8000;
/// Set by an asker that wants the reply to itself rather than to the group.
pub const UNICAST_REPLY: u16 = 0x8000;
/// The most interfaces one daemon serves.
pub const MAX_IF: usize = 8;
/// How many pointers are followed in one name.
pub const MAX_HOPS: u8 = 8;

/// `local` as a label, and the end of the name.
pub const LOCAL: [u8; 7] = [5, 0x6c, 0x6f, 0x63, 0x61, 0x6c, 0];

/// `<host>.local` as DNS labels.
pub struct Name(pub Vec<u8>);

/// A label of at most 63 bytes, its length in front.
pub open spec fn label(b: Seq<u8>) -> Seq<u8> {
    let n = if b.len() < 63 { b.len() as int } else { 63 };
    seq![n as u8] + b.take(n)
}

/// The labels of `<host>.local`.
pub open spec fn labels(host: Seq<u8>) -> Seq<u8> {
    label(host) + LOCAL@
}

/// A byte with an ASCII letter put in lower case.
pub open spec fn lower(b: u8) -> u8 {
    if 65 <= b <= 90 { (b + 32) as u8 } else { b }
}

/// Whether two names are the same but for the case of ASCII letters.
pub open spec fn same_name(a: Seq<u8>, b: Seq<u8>) -> bool {
    a.len() == b.len() && forall|i: int| 0 <= i < a.len() ==> lower(#[trigger] a[i]) == lower(b[i])
}

impl Name {
    /// A name of two labels is short.
    pub open spec fn wf(&self) -> bool {
        self.0@.len() <= 255
    }

    /// The name of a host.
    pub fn new(host: &str) -> (r: Self)
        ensures
            r.wf(),
            r.0@ == labels(host.spec_bytes()),
    {
        let bytes = host.as_bytes();
        let n: usize = if bytes.len() < 63 { bytes.len() } else { 63 };
        let mut wire: Vec<u8> = Vec::new();
        wire.push(n as u8);
        let head = copy_range(bytes, 0, n);
        assert(head@ =~= bytes@.take(n as int));
        append(&mut wire, &head);
        assert(wire@ =~= label(bytes@));
        append(&mut wire, &LOCAL);
        Name(wire)
    }

    /// Whether a name read from a packet is this one.
    pub fn matches(&self, other: &[u8]) -> (r: bool)
        ensures
            r == same_name(self.0@, other@),
    {
        if self.0.len() != other.len() {
            return false;
        }
        let mut i: usize = 0;
        while i < other.len()
            invariant
                i <= other@.len(),
                self.0@.len() == other@.len(),
                forall|j: int| 0 <= j < i ==> lower(#[trigger] self.0@[j]) == lower(other@[j]),
            decreases other@.len() - i,
        {
            if lower_byte(self.0[i]) != lower_byte(other[i]) {
                return false;
            }
            i += 1;
        }
        true
    }
}

fn lower_byte(b: u8) -> (r: u8)
    ensures
        r == lower(b),
{
    if 65 <= b && b <= 90 { b + 32 } else { b }
}

/// What a query wants from us.
#[derive(Debug, PartialEq, Eq, Structural)]
pub struct Ask {
    pub id: u16,
    pub want_a: bool,
    /// The name was asked for AAAA: answer NSEC, which says there is none.
    pub want_nsec: bool,
    pub unicast: bool,
}

/// The name at a place, with its pointers followed, where `hops` were followed and `have` bytes
/// read before. A name ends within 255 bytes and eight pointers, or it is none.
pub open spec fn name_at(pkt: Seq<u8>, i: int, hops: int, have: int) -> Option<Seq<u8>>
    decreases MAX_HOPS - hops, pkt.len() - i,
{
    if i < 0 || i >= pkt.len() {
        None
    } else if pkt[i] >= 0xC0 {
        if i + 1 >= pkt.len() || hops < 0 || hops >= MAX_HOPS {
            None
        } else {
            name_at(pkt, pointer(pkt, i), hops + 1, have)
        }
    } else if have + 1 + pkt[i] >= 255 || i + 1 + pkt[i] > pkt.len() {
        None
    } else if pkt[i] == 0 {
        Some(seq![0u8])
    } else {
        match name_at(pkt, i + 1 + pkt[i], hops, have + 1 + pkt[i]) {
            Some(rest) => Some(pkt.subrange(i, i + 1 + pkt[i]) + rest),
            None => None,
        }
    }
}

/// Where a pointer leads.
pub open spec fn pointer(pkt: Seq<u8>, i: int) -> int {
    (pkt[i] - 0xC0) * 256 + pkt[i + 1]
}

/// Where the name at a place ends in the packet: behind its first pointer or its closing zero.
pub open spec fn name_end(pkt: Seq<u8>, i: int) -> int
    decreases pkt.len() - i,
{
    if i < 0 || i >= pkt.len() {
        i
    } else if pkt[i] >= 0xC0 {
        i + 2
    } else if pkt[i] == 0 {
        i + 1
    } else if i + 1 + pkt[i] > pkt.len() {
        i
    } else {
        name_end(pkt, i + 1 + pkt[i])
    }
}

/// Expands the name at `pos`, following compression pointers, and reports where the name ends in
/// the packet, which is not where it ends after a jump.
pub fn read_name(pkt: &[u8], pos: usize) -> (r: Option<(Vec<u8>, usize)>)
    ensures
        match r {
            Some((name, end)) => name_at(pkt@, pos as int, 0, 0) == Some(name@)
                && end == name_end(pkt@, pos as int) && end <= pkt@.len(),
            None => name_at(pkt@, pos as int, 0, 0) is None,
        },
{
    let mut i: usize = pos;
    let mut end: Option<usize> = None;
    let mut hops: u8 = 0;
    let mut out: Vec<u8> = Vec::new();
    let ghost whole = name_at(pkt@, pos as int, 0, 0);
    assert(whole matches Some(w) ==> out@ + w =~= w);
    loop
        invariant
            hops <= MAX_HOPS,
            out@.len() <= 255,
            whole == name_at(pkt@, pos as int, 0, 0),
            match name_at(pkt@, i as int, hops as int, out@.len() as int) {
                Some(rest) => whole == Some(out@ + rest),
                None => whole is None,
            },
            match end {
                Some(e) => e == name_end(pkt@, pos as int) && e <= pkt@.len(),
                None => name_end(pkt@, pos as int) == name_end(pkt@, i as int),
            },
        decreases MAX_HOPS - hops, pkt@.len() - i,
    {
        if i >= pkt.len() {
            return None;
        }
        let len: u8 = pkt[i];
        if len >= 0xC0 {
            if pkt.len() - i < 2 {
                return None;
            }
            let next: u8 = pkt[i + 1];
            if hops >= MAX_HOPS {
                return None;
            }
            hops += 1;
            if end.is_none() {
                end = Some(i + 2);
            }
            i = (len - 0xC0) as usize * 256 + next as usize;
            continue;
        }
        let n: usize = len as usize;
        if out.len() + 1 + n >= 255 || n > pkt.len() - i - 1 {
            return None;
        }
        let ghost before = out@;
        let ghost rest = name_at(pkt@, i + 1 + n, hops as int, out@.len() + 1 + n);
        let part = copy_range(pkt, i, i + 1 + n);
        append(&mut out, &part);
        proof {
            if n > 0 {
                if let Some(r) = rest {
                    assert(before + (part@ + r) =~= out@ + r);
                }
            } else {
                assert(part@ =~= seq![0u8]);
            }
        }
        if n == 0 {
            let stop: usize = match end {
                Some(e) => e,
                None => i + 1,
            };
            return Some((out, stop));
        }
        i = i + 1 + n;
    }
}

/// A question: its name, type and class.
pub struct Question {
    pub name: Seq<u8>,
    pub qtype: u16,
    pub qclass: u16,
}

/// Up to `n` questions from a place on, as far as they can be read.
pub open spec fn questions(pkt: Seq<u8>, pos: int, n: int) -> Seq<Question>
    decreases n,
{
    if n <= 0 {
        Seq::empty()
    } else {
        match name_at(pkt, pos, 0, 0) {
            None => Seq::empty(),
            Some(name) => {
                let at = name_end(pkt, pos);
                if at + 4 > pkt.len() {
                    Seq::empty()
                } else {
                    seq![Question { name, qtype: u16_be(pkt, at), qclass: u16_be(pkt, at + 2) }]
                        + questions(pkt, at + 4, n - 1)
                }
            },
        }
    }
}

/// Whether a question is about a name, in the internet class.
pub open spec fn concerns(q: Question, name: Seq<u8>) -> bool {
    q.qclass as int % 0x8000 == CLASS_IN && same_name(name, q.name)
}

/// Whether a question asks for the address.
pub open spec fn asks_a(q: Question) -> bool {
    q.qtype == QTYPE_A || q.qtype == QTYPE_ANY
}

/// Whether a question asks for what is not there, which NSEC answers.
pub open spec fn asks_nsec(q: Question) -> bool {
    q.qtype == QTYPE_AAAA || q.qtype == QTYPE_ANY
}

/// Some question about the name asks for the address.
pub open spec fn wants_a(qs: Seq<Question>, name: Seq<u8>) -> bool {
    exists|i: int| 0 <= i < qs.len() && concerns(#[trigger] qs[i], name) && asks_a(qs[i])
}

/// Some question about the name asks for what NSEC answers.
pub open spec fn wants_nsec(qs: Seq<Question>, name: Seq<u8>) -> bool {
    exists|i: int| 0 <= i < qs.len() && concerns(#[trigger] qs[i], name) && asks_nsec(qs[i])
}

/// A question about the name, at or behind one that gets an answer, wants the reply to itself.
pub open spec fn wants_unicast(qs: Seq<Question>, name: Seq<u8>) -> bool {
    exists|j: int| #![trigger qs[j]] 0 <= j < qs.len() && concerns(qs[j], name) && qs[j].qclass >= UNICAST_REPLY
        && (wants_a(qs.take(j + 1), name) || wants_nsec(qs.take(j + 1), name))
}

/// What a packet asks of a name.
pub open spec fn asked(pkt: Seq<u8>, name: Seq<u8>) -> Option<Ask> {
    if pkt.len() < 12 || pkt[2] >= 0x80 {
        None
    } else {
        let qs = questions(pkt, 12, u16_be(pkt, 4) as int);
        if wants_a(qs, name) || wants_nsec(qs, name) {
            Some(Ask {
                id: u16_be(pkt, 0),
                want_a: wants_a(qs, name),
                want_nsec: wants_nsec(qs, name),
                unicast: wants_unicast(qs, name),
            })
        } else {
            None
        }
    }
}

proof fn one_more(qs: Seq<Question>, q: Question, name: Seq<u8>)
    ensures
        wants_a(qs.push(q), name) == (wants_a(qs, name) || (concerns(q, name) && asks_a(q))),
        wants_nsec(qs.push(q), name) == (wants_nsec(qs, name) || (concerns(q, name) && asks_nsec(q))),
        wants_unicast(qs.push(q), name) == (wants_unicast(qs, name) || (concerns(q, name)
            && q.qclass >= UNICAST_REPLY && (wants_a(qs.push(q), name) || wants_nsec(qs.push(q), name)))),
{
    let all = qs.push(q);
    let n = qs.len() as int;
    assert(all[n] == q);
    assert(all.take(n + 1) =~= all);
    assert forall|i: int| 0 <= i < n implies all[i] == #[trigger] qs[i] && all.take(i + 1) == qs.take(i + 1) by {
        assert(all.take(i + 1) =~= qs.take(i + 1));
    }
    if wants_a(qs, name) {
        let i = choose|i: int| 0 <= i < qs.len() && concerns(#[trigger] qs[i], name) && asks_a(qs[i]);
        assert(all[i] == qs[i]);
    }
    if wants_nsec(qs, name) {
        let i = choose|i: int| 0 <= i < qs.len() && concerns(#[trigger] qs[i], name) && asks_nsec(qs[i]);
        assert(all[i] == qs[i]);
    }
    if wants_unicast(qs, name) {
        let j = choose|j: int| #![trigger qs[j]] 0 <= j < qs.len() && concerns(qs[j], name)
            && qs[j].qclass >= UNICAST_REPLY
            && (wants_a(qs.take(j + 1), name) || wants_nsec(qs.take(j + 1), name));
        assert(all[j] == qs[j]);
    }
}

/// Reads the questions and reports what concerns our name.
pub fn parse_query(pkt: &[u8], name: &Name) -> (r: Option<Ask>)
    ensures
        r == asked(pkt@, name.0@),
{
    if pkt.len() < 12 || pkt[2] >= 0x80 {
        return None;
    }
    let id: u16 = get_be16(pkt, 0);
    let count: u16 = get_be16(pkt, 4);
    let mut want_a = false;
    let mut want_nsec = false;
    let mut unicast = false;
    let mut pos: usize = 12;
    let mut left: u16 = count;
    let ghost all = questions(pkt@, 12, count as int);
    let ghost mut seen: Seq<Question> = Seq::empty();
    assert(seen + all =~= all);
    while left > 0
        invariant_except_break
            all == seen + questions(pkt@, pos as int, left as int),
        invariant
            all == questions(pkt@, 12, count as int),
            want_a == wants_a(seen, name.0@),
            want_nsec == wants_nsec(seen, name.0@),
            unicast == wants_unicast(seen, name.0@),
        ensures
            all == seen,
        decreases left,
    {
        proof {
            if questions(pkt@, pos as int, left as int).len() == 0 {
                assert(seen + questions(pkt@, pos as int, left as int) =~= seen);
            }
        }
        let (qname, next): (Vec<u8>, usize) = match read_name(pkt, pos) {
            Some(x) => x,
            None => {
                break;
            },
        };
        if pkt.len() - next < 4 {
            break;
        }
        let qtype: u16 = get_be16(pkt, next);
        let qclass: u16 = get_be16(pkt, next + 2);
        let ghost q = Question { name: qname@, qtype, qclass };
        proof {
            one_more(seen, q, name.0@);
            let rest = questions(pkt@, next + 4, left - 1);
            assert(seen + (seq![q] + rest) =~= seen.push(q) + rest);
            seen = seen.push(q);
            if left == 1 {
                assert(seen + rest =~= seen);
            }
        }
        pos = next + 4;
        left -= 1;
        if qclass % 0x8000 != CLASS_IN || !name.matches(&qname) {
            continue;
        }
        want_a = want_a || qtype == QTYPE_A || qtype == QTYPE_ANY;
        want_nsec = want_nsec || qtype == QTYPE_AAAA || qtype == QTYPE_ANY;
        if want_a || want_nsec {
            unicast = unicast || qclass >= UNICAST_REPLY;
        }
    }
    if want_a || want_nsec {
        Some(Ask { id, want_a, want_nsec, unicast })
    } else {
        None
    }
}

/// The head of a record: name, type, class and time to live.
pub open spec fn rr_head(name: Seq<u8>, rtype: u16, class: u16, ttl: u32) -> Seq<u8> {
    name + be16(rtype) + be16(class) + be32(ttl)
}

/// The address record.
pub open spec fn a_record(name: Seq<u8>, addr: Seq<u8>, class: u16, ttl: u32) -> Seq<u8> {
    rr_head(name, QTYPE_A, class, ttl) + be16(4) + addr
}

/// The NSEC record: the next name is the name itself, and the one bitmap names type A alone.
pub open spec fn nsec_record(name: Seq<u8>, class: u16, ttl: u32) -> Seq<u8> {
    rr_head(name, QTYPE_NSEC, class, ttl) + be16((name.len() + 3) as u16) + name + seq![0u8, 1u8, 0x40u8]
}

/// The class of an answer.
pub open spec fn answer_class(legacy: bool) -> u16 {
    if legacy { CLASS_IN } else { 0x8001 }
}

/// The time to live of an answer.
pub open spec fn answer_ttl(legacy: bool) -> u32 {
    if legacy { LEGACY_TTL } else { TTL }
}

/// A whole answer: an authoritative response that repeats no question, with as many records as
/// were asked for.
pub open spec fn answer_bytes(name: Seq<u8>, id: u16, addr: Seq<u8>, legacy: bool, with_a: bool, with_nsec: bool) -> Seq<u8> {
    let count = if with_a && with_nsec { 2u16 } else if with_a || with_nsec { 1u16 } else { 0u16 };
    be16(id) + seq![0x84u8, 0x00u8] + be16(0) + be16(count) + be32(0)
        + (if with_a { a_record(name, addr, answer_class(legacy), answer_ttl(legacy)) } else { Seq::empty() })
        + (if with_nsec { nsec_record(name, answer_class(legacy), answer_ttl(legacy)) } else { Seq::empty() })
}

/// Writes the head of a record.
pub fn put_rr_head(b: &mut Vec<u8>, name: &Name, rtype: u16, class: u16, ttl: u32)
    ensures
        final(b)@ == old(b)@ + rr_head(name.0@, rtype, class, ttl),
{
    let ghost start = b@;
    append(b, &name.0);
    put_be16(b, rtype);
    put_be16(b, class);
    put_be32(b, ttl);
    assert(b@ =~= start + rr_head(name.0@, rtype, class, ttl));
}

/// The answer: an A record, and an NSEC record saying A is all there is.
pub fn build_answer(name: &Name, id: u16, addr: [u8; 4], legacy: bool, with_a: bool, with_nsec: bool) -> (b: Vec<u8>)
    requires
        name.wf(),
    ensures
        b@ == answer_bytes(name.0@, id, addr@, legacy, with_a, with_nsec),
{
    let class: u16 = if legacy { CLASS_IN } else { 0x8001 };
    let ttl: u32 = if legacy { LEGACY_TTL } else { TTL };
    let count: u16 = if with_a && with_nsec { 2 } else if with_a || with_nsec { 1 } else { 0 };
    let mut b: Vec<u8> = Vec::new();
    put_be16(&mut b, id);
    assert(b@ =~= be16(id));
    let flags = [0x84u8, 0x00u8];
    assert(flags@ =~= seq![0x84u8, 0x00u8]);
    append(&mut b, &flags);
    put_be16(&mut b, 0);
    put_be16(&mut b, count);
    put_be32(&mut b, 0);
    let ghost head = b@;
    if with_a {
        put_rr_head(&mut b, name, QTYPE_A, class, ttl);
        put_be16(&mut b, 4);
        append(&mut b, &addr);
        assert(b@ =~= head + a_record(name.0@, addr@, class, ttl));
    } else {
        assert(b@ =~= head + Seq::<u8>::empty());
    }
    let ghost front = b@;
    if with_nsec {
        put_rr_head(&mut b, name, QTYPE_NSEC, class, ttl);
        put_be16(&mut b, (name.0.len() + 3) as u16);
        append(&mut b, &name.0);
        let map = [0u8, 1u8, 0x40u8];
        assert(map@ =~= seq![0u8, 1u8, 0x40u8]);
        append(&mut b, &map);
        assert(b@ =~= front + nsec_record(name.0@, class, ttl));
    } else {
        assert(b@ =~= front + Seq::<u8>::empty());
    }
    b
}

/// What goes out for a query, and whether to the asker alone.
pub struct Answer {
    pub unicast: bool,
    pub data: Vec<u8>,
}

/// The answer to a query that came in from a port. An asker on another port than ours speaks
/// plain DNS: it expects its own id and a reply to itself.
pub fn reply(name: &Name, ask: &Ask, addr: [u8; 4], port: u16) -> (r: Answer)
    requires
        name.wf(),
    ensures
        r.unicast == (port != PORT || ask.unicast),
        r.data@ == answer_bytes(
            name.0@,
            if port != PORT { ask.id } else { 0 },
            addr@,
            port != PORT,
            ask.want_a,
            ask.want_nsec,
        ),
{
    let legacy = port != PORT;
    let data = build_answer(name, if legacy { ask.id } else { 0 }, addr, legacy, ask.want_a, ask.want_nsec);
    Answer { unicast: legacy || ask.unicast, data }
}

/// What an interface is announced with when it is joined: both records, to the group.
pub fn announcement(name: &Name, addr: [u8; 4]) -> (data: Vec<u8>)
    requires
        name.wf(),
    ensures
        data@ == answer_bytes(name.0@, 0, addr@, false, true, true),
{
    build_answer(name, 0, addr, false, true, true)
}

/// Whether a command line names a host and one to eight interfaces.
pub fn usable_args(count: usize) -> (r: bool)
    ensures
        r == (2 <= count <= 1 + MAX_IF),
{
    count >= 2 && count <= 1 + MAX_IF
}

/// Names that differ only in the case of ASCII letters are the same name, both ways round.
pub proof fn names_ignore_case(a: Seq<u8>, b: Seq<u8>)
    ensures
        same_name(a, a),
        same_name(a, b) == same_name(b, a),
{
    if same_name(a, b) {
        assert forall|i: int| 0 <= i < b.len() implies lower(#[trigger] b[i]) == lower(a[i]) by {
            assert(lower(a[i]) == lower(b[i]));
        }
    }
    if same_name(b, a) {
        assert forall|i: int| 0 <= i < a.len() implies lower(#[trigger] a[i]) == lower(b[i]) by {
            assert(lower(b[i]) == lower(a[i]));
        }
    }
}

/// The name of a host reads back from wherever it stands in a packet. An empty host is left out:
/// its label would close the name.
pub proof fn a_name_reads_back(pkt: Seq<u8>, i: int, host: Seq<u8>)
    requires
        0 <= i,
        host.len() > 0,
        i + labels(host).len() <= pkt.len(),
        pkt.subrange(i, i + labels(host).len()) == labels(host),
    ensures
        name_at(pkt, i, 0, 0) == Some(labels(host)),
        name_end(pkt, i) == i + labels(host).len(),
{
    let w = labels(host);
    let n = label(host).len() as int;
    assert forall|k: int| 0 <= k < w.len() implies pkt[i + k] == #[trigger] w[k] by {
        assert(pkt.subrange(i, i + w.len())[k] == pkt[i + k]);
    }
    assert(pkt[i] == w[0]);
    assert(w[0] == n - 1);
    assert(pkt[i + n] == w[n]);
    assert(w[n] == 5);
    assert(pkt[i + n + 6] == w[n + 6]);
    assert(w[n + 6] == 0);
    assert(name_at(pkt, i + n + 6, 0, n + 6) == Some(seq![0u8]));
    let tail = pkt.subrange(i + n, i + n + 6) + seq![0u8];
    assert(name_at(pkt, i + n, 0, n) == Some(tail));
    assert(pkt.subrange(i, i + n) + tail =~= w);
    assert(name_end(pkt, i + n + 6) == i + n + 7);
    assert(name_end(pkt, i + n) == i + n + 7);
}

/// A pointer that leads to itself is no name, so a loop is never followed on.
pub proof fn a_pointer_loop_is_no_name(pkt: Seq<u8>, i: int, hops: int, have: int)
    requires
        0 <= i,
        i + 1 < pkt.len(),
        pkt[i] >= 0xC0,
        pointer(pkt, i) == i,
        0 <= hops <= MAX_HOPS,
    ensures
        name_at(pkt, i, hops, have) is None,
    decreases MAX_HOPS - hops,
{
    if hops < MAX_HOPS {
        a_pointer_loop_is_no_name(pkt, i, hops + 1, have);
    }
}

/// A response is never taken for a query, whatever it carries.
pub proof fn responses_are_passed_over(pkt: Seq<u8>, name: Seq<u8>)
    requires
        pkt.len() >= 12,
        pkt[2] >= 0x80,
    ensures
        asked(pkt, name) is None,
{
}

/// Whether some bytes are a written name: labels of up to 63 bytes, each with its length in front,
/// and the zero that closes it.
pub open spec fn written_name(b: Seq<u8>) -> bool
    decreases b.len(),
{
    b.len() > 0 && if b[0] == 0 {
        b.len() == 1
    } else {
        b[0] <= 63 && b.len() > 1 + b[0] && written_name(b.skip(1 + b[0]))
    }
}

/// A written name reads back from wherever it stands in a packet, with so many bytes read before.
proof fn written_name_reads(pkt: Seq<u8>, i: int, b: Seq<u8>, hops: int, have: int)
    requires
        0 <= i,
        0 <= have,
        written_name(b),
        have + b.len() <= 254,
        i + b.len() <= pkt.len(),
        pkt.subrange(i, i + b.len()) == b,
    ensures
        name_at(pkt, i, hops, have) == Some(b),
        name_end(pkt, i) == i + b.len(),
    decreases b.len(),
{
    assert(pkt.subrange(i, i + b.len())[0] == pkt[i]);
    if b[0] == 0 {
        assert(b =~= seq![0u8]);
    } else {
        let n = 1 + b[0];
        let rest = b.skip(n);
        assert(pkt.subrange(i + n, i + n + rest.len()) =~= rest) by {
            assert forall|k: int| 0 <= k < rest.len() implies pkt[i + n + k] == #[trigger] rest[k] by {
                assert(pkt.subrange(i, i + b.len())[n + k] == b[n + k]);
            }
        }
        written_name_reads(pkt, i + n, rest, hops, have + n);
        assert(pkt.subrange(i, i + n) =~= b.take(n)) by {
            assert forall|k: int| 0 <= k < n implies pkt[i + k] == #[trigger] b[k] by {
                assert(pkt.subrange(i, i + b.len())[k] == b[k]);
            }
        }
        assert(b.take(n) + rest =~= b);
    }
}

/// A question as it is written: the name, the type and the class.
pub open spec fn written_question(q: Question) -> Seq<u8> {
    q.name + be16(q.qtype) + be16(q.qclass)
}

/// Questions one after the other.
pub open spec fn written_questions(qs: Seq<Question>) -> Seq<u8>
    decreases qs.len(),
{
    if qs.len() == 0 { Seq::empty() } else { written_question(qs[0]) + written_questions(qs.skip(1)) }
}

/// Whether questions can be written: every name is a written one of at most 254 bytes.
pub open spec fn askable(qs: Seq<Question>) -> bool {
    forall|i: int| 0 <= i < qs.len() ==> written_name((#[trigger] qs[i]).name) && qs[i].name.len() <= 254
}

/// Questions that were written are read, all of them and in their order, wherever they stand.
pub proof fn questions_read_back(head: Seq<u8>, qs: Seq<Question>, more: Seq<u8>)
    requires
        askable(qs),
    ensures
        questions(head + written_questions(qs) + more, head.len() as int, qs.len() as int) == qs,
    decreases qs.len(),
{
    let pkt = head + written_questions(qs) + more;
    let i = head.len() as int;
    if qs.len() == 0 {
        assert(questions(pkt, i, 0) =~= qs);
    } else {
        let q = qs[0];
        let rest = qs.skip(1);
        let w = written_question(q);
        let n = q.name.len() as int;
        assert(written_name(qs[0].name) && qs[0].name.len() <= 254);
        assert(askable(rest)) by {
            assert forall|j: int| 0 <= j < rest.len() implies written_name((#[trigger] rest[j]).name)
                && rest[j].name.len() <= 254 by {
                assert(rest[j] == qs[j + 1]);
            }
        }
        let next = head + w;
        assert(pkt =~= next + written_questions(rest) + more);
        questions_read_back(next, rest, more);
        assert(pkt.subrange(i, i + n) =~= q.name);
        written_name_reads(pkt, i, q.name, 0, 0);
        assert(pkt.subrange(i + n, i + n + 2) =~= be16(q.qtype));
        assert(pkt.subrange(i + n + 2, i + n + 4) =~= be16(q.qclass));
        crate::bytes::integers_read_back(pkt, i + n, q.qtype, 0);
        crate::bytes::integers_read_back(pkt, i + n + 2, q.qclass, 0);
        assert(questions(pkt, i, qs.len() as int) =~= seq![q] + rest);
        assert(qs =~= seq![q] + rest);
    }
}

/// Whether two names are the same letter for letter, but for the case of ASCII letters.
pub open spec fn same_letters(a: Seq<u8>, b: Seq<u8>) -> bool {
    a.len() == b.len() && forall|i: int| 0 <= i < a.len() ==> {
        ||| #[trigger] a[i] == b[i]
        ||| 65 <= a[i] <= 90 && b[i] == a[i] + 32
        ||| 65 <= b[i] <= 90 && a[i] == b[i] + 32
    }
}

/// What a query asks is what any of its questions asks, whichever it is and whatever stands before
/// it: the address where one about the name in the internet class is of type A or ANY, and NSEC where
/// one is AAAA or ANY. Nothing is asked where none is. Its id is the query's, and it wants the reply
/// to itself where a question about the name says so that is at or behind one that is answered.
pub proof fn every_question_counts(id: u16, flags: Seq<u8>, counts: Seq<u8>, qs: Seq<Question>, more: Seq<u8>, name: Seq<u8>)
    requires
        flags.len() == 2,
        flags[0] < 0x80,
        counts.len() == 6,
        qs.len() <= 0xffff,
        askable(qs),
    ensures
        ({
            let pkt = be16(id) + flags + be16(qs.len() as u16) + counts + written_questions(qs) + more;
            let ours = |k: int| 0 <= k < qs.len() && (qs[k].qclass == 1 || qs[k].qclass == 0x8001)
                && same_letters(name, qs[k].name);
            let a = exists|k: int| #[trigger] ours(k) && (qs[k].qtype == 1 || qs[k].qtype == 255);
            let nsec = exists|k: int| #[trigger] ours(k) && (qs[k].qtype == 28 || qs[k].qtype == 255);
            &&& asked(pkt, name) is Some <==> a || nsec
            &&& asked(pkt, name) matches Some(ask) ==> {
                &&& ask.id == id
                &&& ask.want_a == a
                &&& ask.want_nsec == nsec
                &&& ask.unicast == (exists|j: int, k: int| #![trigger ours(j), ours(k)] ours(j) && qs[j].qclass == 0x8001
                    && ours(k) && k <= j && (qs[k].qtype == 1 || qs[k].qtype == 28 || qs[k].qtype == 255))
            }
        }),
{
    let head = be16(id) + flags + be16(qs.len() as u16) + counts;
    let pkt = head + written_questions(qs) + more;
    questions_read_back(head, qs, more);
    assert(pkt.subrange(0, 2) =~= be16(id));
    assert(pkt.subrange(4, 6) =~= be16(qs.len() as u16));
    crate::bytes::integers_read_back(pkt, 0, id, 0);
    crate::bytes::integers_read_back(pkt, 4, qs.len() as u16, 0);
    assert(pkt[2] == flags[0]);
    let ours = |k: int| 0 <= k < qs.len() && (qs[k].qclass == 1 || qs[k].qclass == 0x8001)
        && same_letters(name, qs[k].name);
    assert forall|k: int| 0 <= k < qs.len() implies concerns(#[trigger] qs[k], name) == ours(k) by {
        letters_tell(name, qs[k].name);
    }
    assert(questions(pkt, 12, qs.len() as int) == qs);
    wanted_by_some(qs, name, ours);
}

proof fn letters_tell(a: Seq<u8>, b: Seq<u8>)
    ensures
        same_name(a, b) == same_letters(a, b),
{
    if same_name(a, b) {
        assert forall|i: int| 0 <= i < a.len() implies {
            ||| #[trigger] a[i] == b[i]
            ||| 65 <= a[i] <= 90 && b[i] == a[i] + 32
            ||| 65 <= b[i] <= 90 && a[i] == b[i] + 32
        } by {
            assert(lower(a[i]) == lower(b[i]));
        }
    }
    if same_letters(a, b) {
        assert forall|i: int| 0 <= i < a.len() implies lower(#[trigger] a[i]) == lower(b[i]) by {}
    }
}

proof fn wanted_by_some(qs: Seq<Question>, name: Seq<u8>, ours: spec_fn(int) -> bool)
    requires
        forall|k: int| #![trigger qs[k]] #![trigger ours(k)] 0 <= k < qs.len() ==> concerns(qs[k], name) == ours(k),
        forall|k: int| #[trigger] ours(k) ==> 0 <= k < qs.len() && (qs[k].qclass == 1 || qs[k].qclass == 0x8001),
    ensures
        wants_a(qs, name) == (exists|k: int| #[trigger] ours(k) && (qs[k].qtype == 1 || qs[k].qtype == 255)),
        wants_nsec(qs, name) == (exists|k: int| #[trigger] ours(k) && (qs[k].qtype == 28 || qs[k].qtype == 255)),
        wants_unicast(qs, name) == (exists|j: int, k: int| #![trigger ours(j), ours(k)] ours(j) && qs[j].qclass == 0x8001
            && ours(k) && k <= j && (qs[k].qtype == 1 || qs[k].qtype == 28 || qs[k].qtype == 255)),
{
    if wants_a(qs, name) {
        let k = choose|k: int| 0 <= k < qs.len() && concerns(#[trigger] qs[k], name) && asks_a(qs[k]);
        assert(ours(k));
    }
    if exists|k: int| #[trigger] ours(k) && (qs[k].qtype == 1 || qs[k].qtype == 255) {
        let k = choose|k: int| #[trigger] ours(k) && (qs[k].qtype == 1 || qs[k].qtype == 255);
        assert(concerns(qs[k], name));
    }
    if wants_nsec(qs, name) {
        let k = choose|k: int| 0 <= k < qs.len() && concerns(#[trigger] qs[k], name) && asks_nsec(qs[k]);
        assert(ours(k));
    }
    if exists|k: int| #[trigger] ours(k) && (qs[k].qtype == 28 || qs[k].qtype == 255) {
        let k = choose|k: int| #[trigger] ours(k) && (qs[k].qtype == 28 || qs[k].qtype == 255);
        assert(concerns(qs[k], name));
    }
    if wants_unicast(qs, name) {
        let j = choose|j: int| #![trigger qs[j]] 0 <= j < qs.len() && concerns(qs[j], name)
            && qs[j].qclass >= UNICAST_REPLY && (wants_a(qs.take(j + 1), name) || wants_nsec(qs.take(j + 1), name));
        assert(ours(j));
        let front = qs.take(j + 1);
        let k = choose|k: int| 0 <= k < front.len() && concerns(#[trigger] front[k], name)
            && (asks_a(front[k]) || asks_nsec(front[k]));
        assert(front[k] == qs[k]);
        assert(ours(k));
    }
    if exists|j: int, k: int| #![trigger ours(j), ours(k)] ours(j) && qs[j].qclass == 0x8001
        && ours(k) && k <= j && (qs[k].qtype == 1 || qs[k].qtype == 28 || qs[k].qtype == 255) {
        let (j, k) = choose|j: int, k: int| #![trigger ours(j), ours(k)] ours(j) && qs[j].qclass == 0x8001
            && ours(k) && k <= j && (qs[k].qtype == 1 || qs[k].qtype == 28 || qs[k].qtype == 255);
        let front = qs.take(j + 1);
        assert(front[k] == qs[k]);
        assert(concerns(qs[k], name));
        assert(concerns(qs[j], name));
        assert(wants_a(front, name) || wants_nsec(front, name));
    }
}

/// A pointer stands for the name it leads to, and takes two bytes itself.
pub proof fn a_pointer_stands_for_its_name(pkt: Seq<u8>, i: int, to: int, b: Seq<u8>)
    requires
        0 <= i,
        i + 1 < pkt.len(),
        0 <= to < 0x4000,
        pkt[i] == 0xC0 + to / 256,
        pkt[i + 1] == to % 256,
        written_name(b),
        b.len() <= 254,
        to + b.len() <= pkt.len(),
        pkt.subrange(to, to + b.len()) == b,
    ensures
        name_at(pkt, i, 0, 0) == Some(b),
        name_end(pkt, i) == i + 2,
{
    written_name_reads(pkt, to, b, 1, 0);
    assert(pointer(pkt, i) == to);
}

/// What an asker reads in an answer: its id, that this is an authoritative response, how many records
/// follow, the address record with the address, and the NSEC record that names type A alone. To the
/// group they are flushed into the caches and live two minutes, to a legacy asker ten seconds.
#[verifier::rlimit(40)]
pub proof fn an_answer_reads_back(name: Seq<u8>, id: u16, addr: Seq<u8>, legacy: bool, with_a: bool, with_nsec: bool)
    requires
        name.len() <= 254,
        addr.len() == 4,
    ensures
        ({
            let b = answer_bytes(name, id, addr, legacy, with_a, with_nsec);
            let n = name.len() as int;
            let class = if legacy { 1u16 } else { 0x8001u16 };
            let ttl = if legacy { 10u32 } else { 120u32 };
            let at = if with_a { 12 + n + 14 } else { 12 };
            &&& u16_be(b, 0) == id
            &&& b[2] == 0x84 && b[3] == 0
            &&& u16_be(b, 4) == 0
            &&& u16_be(b, 6) == (if with_a { 1int } else { 0 }) + (if with_nsec { 1int } else { 0 })
            &&& u16_be(b, 8) == 0 && u16_be(b, 10) == 0
            &&& b.len() == at + (if with_nsec { 2 * n + 13 } else { 0 })
            &&& with_a ==> {
                &&& b.subrange(12, 12 + n) == name
                &&& u16_be(b, 12 + n) == 1
                &&& u16_be(b, 14 + n) == class
                &&& u32_be(b, 16 + n) == ttl
                &&& u16_be(b, 20 + n) == 4
                &&& b.subrange(22 + n, 26 + n) == addr
            }
            &&& with_nsec ==> {
                &&& b.subrange(at, at + n) == name
                &&& u16_be(b, at + n) == 47
                &&& u16_be(b, at + n + 2) == class
                &&& u32_be(b, at + n + 4) == ttl
                &&& u16_be(b, at + n + 8) == n + 3
                &&& b.subrange(at + n + 10, at + 2 * n + 10) == name
                &&& b.subrange(at + 2 * n + 10, at + 2 * n + 13) == seq![0u8, 1u8, 0x40u8]
            }
        }),
{
    let b = answer_bytes(name, id, addr, legacy, with_a, with_nsec);
    let n = name.len() as int;
    let class = answer_class(legacy);
    let ttl = answer_ttl(legacy);
    let at = if with_a { 12 + n + 14 } else { 12 };
    let count = if with_a && with_nsec { 2u16 } else if with_a || with_nsec { 1u16 } else { 0u16 };
    let e = Seq::<u8>::empty();
    let head = be16(id) + seq![0x84u8, 0x00u8] + be16(0) + be16(count) + be32(0);
    let a = if with_a { a_record(name, addr, class, ttl) } else { e };
    let s = if with_nsec { nsec_record(name, class, ttl) } else { e };
    assert(b == head + a + s);
    head_reads(head, id, count);
    assert(b == e + head + (a + s)) by {
        assert(head + a + s =~= e + head + (a + s));
    }
    moved(e, head, a + s, 0, 2);
    moved(e, head, a + s, 2, 4);
    moved(e, head, a + s, 4, 6);
    moved(e, head, a + s, 6, 8);
    moved(e, head, a + s, 8, 10);
    moved(e, head, a + s, 10, 12);
    if with_a {
        a_reads(a, name, addr, class, ttl);
        moved(head, a, s, 0, n);
        moved(head, a, s, n, n + 2);
        moved(head, a, s, n + 2, n + 4);
        moved(head, a, s, n + 4, n + 8);
        moved(head, a, s, n + 8, n + 10);
        moved(head, a, s, n + 10, n + 14);
    }
    if with_nsec {
        nsec_reads(s, name, class, ttl);
        let p = head + a;
        assert(b == p + s + e) by {
            assert(p + s + e =~= p + s);
        }
        moved(p, s, e, 0, n);
        moved(p, s, e, n, n + 2);
        moved(p, s, e, n + 2, n + 4);
        moved(p, s, e, n + 4, n + 8);
        moved(p, s, e, n + 8, n + 10);
        moved(p, s, e, n + 10, 2 * n + 10);
        moved(p, s, e, 2 * n + 10, 2 * n + 13);
    }
}

/// What stands in a part stands in the whole, as far behind as the part begins.
proof fn moved(p: Seq<u8>, r: Seq<u8>, t: Seq<u8>, i: int, j: int)
    requires
        0 <= i <= j <= r.len(),
    ensures
        (p + r + t).subrange(p.len() + i, p.len() + j) == r.subrange(i, j),
        j == i + 2 ==> u16_be(p + r + t, p.len() + i) == u16_be(r, i) && (p + r + t)[p.len() + i] == r[i]
            && (p + r + t)[p.len() + i + 1] == r[i + 1],
        j == i + 4 ==> u32_be(p + r + t, p.len() + i) == u32_be(r, i),
{
    assert((p + r + t).subrange(p.len() + i, p.len() + j) =~= r.subrange(i, j));
}

proof fn head_reads(head: Seq<u8>, id: u16, count: u16)
    requires
        head == be16(id) + seq![0x84u8, 0x00u8] + be16(0) + be16(count) + be32(0),
    ensures
        head.len() == 12,
        u16_be(head, 0) == id,
        head[2] == 0x84,
        head[3] == 0,
        u16_be(head, 4) == 0,
        u16_be(head, 6) == count,
        u16_be(head, 8) == 0,
        u16_be(head, 10) == 0,
{
    assert(head.subrange(0, 2) =~= be16(id));
    assert(head.subrange(6, 8) =~= be16(count));
    crate::bytes::integers_read_back(head, 0, id, 0);
    crate::bytes::integers_read_back(head, 6, count, 0);
}

proof fn a_reads(a: Seq<u8>, name: Seq<u8>, addr: Seq<u8>, class: u16, ttl: u32)
    requires
        a == a_record(name, addr, class, ttl),
        addr.len() == 4,
    ensures
        ({
            let n = name.len() as int;
            &&& a.len() == n + 14
            &&& a.subrange(0, n) == name
            &&& u16_be(a, n) == 1
            &&& u16_be(a, n + 2) == class
            &&& u32_be(a, n + 4) == ttl
            &&& u16_be(a, n + 8) == 4
            &&& a.subrange(10 + n, 14 + n) == addr
        }),
{
    let n = name.len() as int;
    assert(a.subrange(0, n) =~= name);
    assert(a.subrange(n, n + 2) =~= be16(1));
    assert(a.subrange(n + 2, n + 4) =~= be16(class));
    assert(a.subrange(n + 4, n + 8) =~= be32(ttl));
    assert(a.subrange(n + 8, n + 10) =~= be16(4));
    assert(a.subrange(10 + n, 14 + n) =~= addr);
    crate::bytes::integers_read_back(a, n, 1, 0);
    crate::bytes::integers_read_back(a, n + 2, class, 0);
    crate::bytes::integers_read_back(a, n + 4, 0, ttl);
    crate::bytes::integers_read_back(a, n + 8, 4, 0);
}

proof fn nsec_reads(s: Seq<u8>, name: Seq<u8>, class: u16, ttl: u32)
    requires
        s == nsec_record(name, class, ttl),
        name.len() <= 254,
    ensures
        ({
            let n = name.len() as int;
            &&& s.len() == 2 * n + 13
            &&& s.subrange(0, n) == name
            &&& u16_be(s, n) == 47
            &&& u16_be(s, n + 2) == class
            &&& u32_be(s, n + 4) == ttl
            &&& u16_be(s, n + 8) == n + 3
            &&& s.subrange(n + 10, 2 * n + 10) == name
            &&& s.subrange(2 * n + 10, 2 * n + 13) == seq![0u8, 1u8, 0x40u8]
        }),
{
    let n = name.len() as int;
    assert(s.subrange(0, n) =~= name);
    assert(s.subrange(n, n + 2) =~= be16(47));
    assert(s.subrange(n + 2, n + 4) =~= be16(class));
    assert(s.subrange(n + 4, n + 8) =~= be32(ttl));
    assert(s.subrange(n + 8, n + 10) =~= be16((n + 3) as u16));
    assert(s.subrange(n + 10, 2 * n + 10) =~= name);
    assert(s.subrange(2 * n + 10, 2 * n + 13) =~= seq![0u8, 1u8, 0x40u8]);
    crate::bytes::integers_read_back(s, n, 47, 0);
    crate::bytes::integers_read_back(s, n + 2, class, 0);
    crate::bytes::integers_read_back(s, n + 4, 0, ttl);
    crate::bytes::integers_read_back(s, n + 8, (n + 3) as u16, 0);
}

/// Whatever is asked in a query is heard, whichever of its questions asks it.
pub proof fn a_query_is_heard(
    pkt: &[u8],
    name: &Name,
    id: u16,
    flags: Seq<u8>,
    counts: Seq<u8>,
    qs: Seq<Question>,
    k: int,
    r: Option<Ask>,
)
    requires
        call_ensures(parse_query, (pkt, name), r),
        flags.len() == 2,
        flags[0] < 0x80,
        counts.len() == 6,
        0 <= k < qs.len() <= 0xffff,
        askable(qs),
        pkt@ == be16(id) + flags + be16(qs.len() as u16) + counts + written_questions(qs),
        same_letters(name.0@, qs[k].name),
        qs[k].qclass == 1 || qs[k].qclass == 0x8001,
    ensures
        qs[k].qtype == 1 || qs[k].qtype == 255 ==> (r matches Some(ask) && ask.id == id && ask.want_a),
        qs[k].qtype == 28 || qs[k].qtype == 255 ==> (r matches Some(ask) && ask.id == id && ask.want_nsec),
        qs[k].qclass == 0x8001 && (qs[k].qtype == 1 || qs[k].qtype == 28 || qs[k].qtype == 255) ==> (r matches Some(ask)
            && ask.unicast),
{
    let e = Seq::<u8>::empty();
    let all = be16(id) + flags + be16(qs.len() as u16) + counts + written_questions(qs) + e;
    assert(all =~= pkt@);
    every_question_counts(id, flags, counts, qs, e, name.0@);
    let ours = |k: int| 0 <= k < qs.len() && (qs[k].qclass == 1 || qs[k].qclass == 0x8001)
        && same_letters(name.0@, qs[k].name);
    assert(ours(k));
}

/// A packet in which no question about the name is of a type we answer is passed over.
pub proof fn other_queries_are_passed_over(
    pkt: &[u8],
    name: &Name,
    id: u16,
    flags: Seq<u8>,
    counts: Seq<u8>,
    qs: Seq<Question>,
    r: Option<Ask>,
)
    requires
        call_ensures(parse_query, (pkt, name), r),
        flags.len() == 2,
        flags[0] < 0x80,
        counts.len() == 6,
        qs.len() <= 0xffff,
        askable(qs),
        pkt@ == be16(id) + flags + be16(qs.len() as u16) + counts + written_questions(qs),
        forall|k: int| 0 <= k < qs.len() ==> !same_letters(name.0@, (#[trigger] qs[k]).name)
            || !(qs[k].qclass == 1 || qs[k].qclass == 0x8001)
            || !(qs[k].qtype == 1 || qs[k].qtype == 28 || qs[k].qtype == 255),
    ensures
        r is None,
{
    let e = Seq::<u8>::empty();
    let all = be16(id) + flags + be16(qs.len() as u16) + counts + written_questions(qs) + e;
    assert(all =~= pkt@);
    every_question_counts(id, flags, counts, qs, e, name.0@);
}

/// What goes out for a query is read with the id it needs: an asker on another port gets its own id, a
/// short life and the reply to itself, one on ours none, a long life and the reply to the group unless it
/// wants it to itself.
pub proof fn a_reply_suits_its_asker(name: &Name, ask: &Ask, addr: [u8; 4], port: u16, r: Answer)
    requires
        call_ensures(reply, (name, ask, addr, port), r),
        name.0@.len() <= 254,
    ensures
        ({
            let n = name.0@.len() as int;
            let b = r.data@;
            &&& port != 5353 ==> r.unicast && u16_be(b, 0) == ask.id
            &&& port == 5353 ==> r.unicast == ask.unicast && u16_be(b, 0) == 0
            &&& b[2] == 0x84
            &&& u16_be(b, 6) == (if ask.want_a { 1int } else { 0 }) + (if ask.want_nsec { 1int } else { 0 })
            &&& ask.want_a ==> b.subrange(12, 12 + n) == name.0@ && u16_be(b, 12 + n) == 1
                && u16_be(b, 14 + n) == (if port != 5353 { 1u16 } else { 0x8001u16 })
                && u32_be(b, 16 + n) == (if port != 5353 { 10u32 } else { 120u32 })
                && b.subrange(22 + n, 26 + n) == addr@
            &&& !ask.want_a && ask.want_nsec ==> b.subrange(12, 12 + n) == name.0@ && u16_be(b, 12 + n) == 47
        }),
{
    an_answer_reads_back(name.0@, if port != 5353 { ask.id } else { 0 }, addr@, port != 5353, ask.want_a, ask.want_nsec);
}

/// What an interface is announced with reads as an unasked answer with both records.
pub proof fn an_announcement_carries_both(name: &Name, addr: [u8; 4], data: Vec<u8>)
    requires
        call_ensures(announcement, (name, addr), data),
        name.0@.len() <= 254,
    ensures
        ({
            let n = name.0@.len() as int;
            let b = data@;
            &&& u16_be(b, 0) == 0
            &&& u16_be(b, 6) == 2
            &&& b.subrange(12, 12 + n) == name.0@
            &&& u16_be(b, 12 + n) == 1 && u16_be(b, 14 + n) == 0x8001 && u32_be(b, 16 + n) == 120
            &&& b.subrange(22 + n, 26 + n) == addr@
            &&& b.subrange(26 + n, 26 + 2 * n) == name.0@
            &&& u16_be(b, 26 + 2 * n) == 47
        }),
{
    an_answer_reads_back(name.0@, 0, addr@, false, true, true);
}

/// A host's name is its label of at most 63 bytes, the label `local`, and the zero that closes it.
pub proof fn a_host_has_its_name(host: Seq<u8>, i: int)
    ensures
        ({
            let n = if host.len() < 63 { host.len() as int } else { 63 };
            let l = labels(host);
            &&& l.len() == n + 8
            &&& l[0] == n
            &&& 0 <= i < n ==> l[1 + i] == host[i]
            &&& l.skip(1 + n) == seq![5u8, 0x6cu8, 0x6fu8, 0x63u8, 0x61u8, 0x6cu8, 0u8]
        }),
{
    let n = if host.len() < 63 { host.len() as int } else { 63 };
    assert(labels(host).skip(1 + n) =~= seq![5u8, 0x6cu8, 0x6fu8, 0x63u8, 0x61u8, 0x6cu8, 0u8]);
}

} // verus!
