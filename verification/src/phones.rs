//! Which phones are paged, when, and what is remembered of each while they are.

use vstd::prelude::*;
use vstd::arithmetic::div_mod::lemma_fundamental_div_mod;
use vstd::arithmetic::div_mod::lemma_fundamental_div_mod_converse;

use crate::bytes::same;

verus! {

/// Quick tries before a phone is left alone for longer.
pub const RING_FAST_TRIES: u64 = 15;
/// How long a phone is left alone after its quick tries, in milliseconds.
pub const RING_SLOW: u64 = 30000;
/// How long a phone the host still wants may hold the link before it is disconnected, in
/// milliseconds.
pub const STALE: u64 = 10000;

/// A number for each of some phones.
pub struct PerPhone {
    pub entries: Vec<([u8; 6], u64)>,
}

/// The number of a phone.
pub open spec fn lookup(entries: Seq<([u8; 6], u64)>, phone: Seq<u8>) -> Option<u64>
    decreases entries.len(),
{
    if entries.len() == 0 {
        None
    } else if entries[0].0@ == phone {
        Some(entries[0].1)
    } else {
        lookup(entries.skip(1), phone)
    }
}

/// Whether a list names a phone.
pub open spec fn listed(list: Seq<[u8; 6]>, phone: Seq<u8>) -> bool {
    exists|i: int| 0 <= i < list.len() && (#[trigger] list[i])@ == phone
}

proof fn lookup_sum(a: Seq<([u8; 6], u64)>, b: Seq<([u8; 6], u64)>, phone: Seq<u8>)
    ensures
        lookup(a + b, phone) == (match lookup(a, phone) {
            Some(v) => Some(v),
            None => lookup(b, phone),
        }),
    decreases a.len(),
{
    if a.len() == 0 {
        assert(a + b =~= b);
    } else {
        assert((a + b).skip(1) =~= a.skip(1) + b);
        lookup_sum(a.skip(1), b, phone);
    }
}

proof fn lookup_one(e: ([u8; 6], u64), phone: Seq<u8>)
    ensures
        lookup(seq![e], phone) == (if e.0@ == phone { Some(e.1) } else { None }),
{
    assert(seq![e].skip(1) =~= Seq::<([u8; 6], u64)>::empty());
    assert(lookup(Seq::<([u8; 6], u64)>::empty(), phone) is None);
}

proof fn lookup_push(a: Seq<([u8; 6], u64)>, e: ([u8; 6], u64), phone: Seq<u8>)
    ensures
        lookup(a.push(e), phone) == (match lookup(a, phone) {
            Some(v) => Some(v),
            None => if e.0@ == phone { Some(e.1) } else { None },
        }),
{
    assert(a.push(e) =~= a + seq![e]);
    lookup_sum(a, seq![e], phone);
    lookup_one(e, phone);
}

/// Whether a phone is in a list.
pub fn in_list(list: &Vec<[u8; 6]>, phone: &[u8; 6]) -> (r: bool)
    ensures
        r == listed(list@, phone@),
{
    let mut i: usize = 0;
    while i < list.len()
        invariant
            i <= list@.len(),
            forall|j: int| 0 <= j < i ==> (#[trigger] list@[j])@ != phone@,
        decreases list@.len() - i,
    {
        if same(&list[i], phone) {
            assert(list@[i as int]@ == phone@);
            return true;
        }
        i += 1;
    }
    false
}

impl PerPhone {
    /// The number of a phone, if it has one.
    pub open spec fn of(&self, phone: Seq<u8>) -> Option<u64> {
        lookup(self.entries@, phone)
    }

    pub fn new() -> (r: Self)
        ensures
            forall|p: Seq<u8>| (#[trigger] r.of(p)) is None,
    {
        PerPhone { entries: Vec::new() }
    }

    /// The number of a phone, if it has one.
    pub fn get(&self, phone: &[u8; 6]) -> (r: Option<u64>)
        ensures
            r == self.of(phone@),
    {
        let mut i: usize = 0;
        assert(self.entries@.skip(0) =~= self.entries@);
        while i < self.entries.len()
            invariant
                i <= self.entries@.len(),
                self.of(phone@) == lookup(self.entries@.skip(i as int), phone@),
            decreases self.entries@.len() - i,
        {
            assert(self.entries@.skip(i as int).skip(1) =~= self.entries@.skip(i + 1));
            if same(&self.entries[i].0, phone) {
                return Some(self.entries[i].1);
            }
            i += 1;
        }
        None
    }

    /// Forgets a phone.
    pub fn remove(&mut self, phone: &[u8; 6])
        ensures
            forall|p: Seq<u8>| #[trigger] final(self).of(p) == (if p == phone@ { None } else { old(self).of(p) }),
    {
        let ghost all = self.entries@;
        let mut kept: Vec<([u8; 6], u64)> = Vec::new();
        let mut i: usize = 0;
        assert(all.take(0) =~= kept@);
        while i < self.entries.len()
            invariant
                i <= self.entries@.len(),
                self.entries@ == all,
                all == old(self).entries@,
                forall|p: Seq<u8>| #[trigger] lookup(kept@, p)
                    == (if p == phone@ { None } else { lookup(all.take(i as int), p) }),
            decreases self.entries@.len() - i,
        {
            let ghost before = kept@;
            let e = self.entries[i];
            assert(all.take(i + 1) =~= all.take(i as int).push(e));
            if !same(&e.0, phone) {
                kept.push(e);
            }
            assert forall|p: Seq<u8>| #[trigger] lookup(kept@, p)
                == (if p == phone@ { None } else { lookup(all.take(i + 1), p) }) by {
                lookup_push(all.take(i as int), e, p);
                lookup_push(before, e, p);
                assert(lookup(before, p) == (if p == phone@ { None } else { lookup(all.take(i as int), p) }));
            }
            i += 1;
        }
        assert(all.take(i as int) =~= all);
        self.entries = kept;
        assert forall|p: Seq<u8>| #[trigger] self.of(p) == (if p == phone@ { None } else { old(self).of(p) }) by {
            assert(lookup(kept@, p) == (if p == phone@ { None } else { lookup(all, p) }));
        }
    }

    /// Gives a phone a number.
    pub fn insert(&mut self, phone: [u8; 6], value: u64)
        ensures
            forall|p: Seq<u8>| #[trigger] final(self).of(p) == (if p == phone@ { Some(value) } else { old(self).of(p) }),
    {
        let ghost was = *self;
        self.remove(&phone);
        let ghost mid = *self;
        self.entries.push((phone, value));
        assert forall|p: Seq<u8>| #[trigger] self.of(p) == (if p == phone@ { Some(value) } else { was.of(p) }) by {
            lookup_push(mid.entries@, (phone, value), p);
            assert(mid.of(p) == (if p == phone@ { None } else { was.of(p) }));
        }
    }

    /// Forgets every phone that is not on a list.
    pub fn retain(&mut self, list: &Vec<[u8; 6]>)
        ensures
            forall|p: Seq<u8>| #[trigger] final(self).of(p) == (if listed(list@, p) { old(self).of(p) } else { None }),
    {
        let ghost all = self.entries@;
        let mut kept: Vec<([u8; 6], u64)> = Vec::new();
        let mut i: usize = 0;
        assert(all.take(0) =~= kept@);
        while i < self.entries.len()
            invariant
                i <= self.entries@.len(),
                self.entries@ == all,
                all == old(self).entries@,
                forall|p: Seq<u8>| #[trigger] lookup(kept@, p)
                    == (if listed(list@, p) { lookup(all.take(i as int), p) } else { None }),
            decreases self.entries@.len() - i,
        {
            let ghost before = kept@;
            let e = self.entries[i];
            assert(all.take(i + 1) =~= all.take(i as int).push(e));
            if in_list(list, &e.0) {
                kept.push(e);
            }
            assert forall|p: Seq<u8>| #[trigger] lookup(kept@, p)
                == (if listed(list@, p) { lookup(all.take(i + 1), p) } else { None }) by {
                lookup_push(all.take(i as int), e, p);
                lookup_push(before, e, p);
                assert(lookup(before, p) == (if listed(list@, p) { lookup(all.take(i as int), p) } else { None }));
            }
            i += 1;
        }
        assert(all.take(i as int) =~= all);
        self.entries = kept;
        assert forall|p: Seq<u8>| #[trigger] self.of(p) == (if listed(list@, p) { old(self).of(p) } else { None }) by {
            assert(lookup(kept@, p) == (if listed(list@, p) { lookup(all, p) } else { None }));
        }
    }

    /// Whether no phone has a number.
    pub fn is_empty(&self) -> (r: bool)
        ensures
            r == (forall|p: Seq<u8>| (#[trigger] self.of(p)) is None),
    {
        proof {
            if self.entries@.len() > 0 {
                assert(self.of(self.entries@[0].0@) is Some);
            } else {
                assert forall|p: Seq<u8>| (#[trigger] self.of(p)) is None by {}
            }
        }
        self.entries.len() == 0
    }
}

/// Which phones the host wants paged, and what is known about them. No list at all means the
/// stored bonds are used, an empty list means nobody is paged.
pub struct Phones {
    pub wanted: Option<Vec<[u8; 6]>>,
    pub linked: PerPhone,
    pub since: PerPhone,
    pub tries: PerPhone,
    pub after: PerPhone,
    pub next: usize,
}

/// The addresses of stored bonds.
pub open spec fn bonded(bonds: Seq<Vec<u8>>) -> Seq<Seq<u8>>
    decreases bonds.len(),
{
    if bonds.len() == 0 {
        Seq::empty()
    } else if bonds.last()@.len() >= 6 {
        bonded(bonds.drop_last()).push(bonds.last()@.take(6))
    } else {
        bonded(bonds.drop_last())
    }
}

/// The addresses in a list.
pub open spec fn addresses(list: Seq<[u8; 6]>) -> Seq<Seq<u8>> {
    Seq::new(list.len(), |i: int| list[i]@)
}

proof fn listed_is_contained(list: Seq<[u8; 6]>, phone: Seq<u8>)
    ensures
        listed(list, phone) == addresses(list).contains(phone),
{
    if listed(list, phone) {
        let i = choose|i: int| 0 <= i < list.len() && (#[trigger] list[i])@ == phone;
        assert(addresses(list)[i] == phone);
    }
    if addresses(list).contains(phone) {
        let i = choose|i: int| 0 <= i < addresses(list).len() && addresses(list)[i] == phone;
        assert(list[i]@ == phone);
    }
}

/// The counter of the rotation a turn later. It starts over behind its largest value.
pub open spec fn advanced(next: usize) -> usize {
    if next == usize::MAX { 0 } else { (next + 1) as usize }
}

/// What comes of a tick of the rotation.
pub enum Ring {
    /// Nothing to do.
    Idle,
    /// This phone holds the link without a session, and is to be disconnected.
    Disconnect([u8; 6]),
    /// This phone is to be paged.
    Page([u8; 6]),
}

impl Phones {
    /// Nobody is on the list, nothing is known.
    pub fn new() -> (r: Self)
        ensures
            r.wanted is None,
            r.wf(),
            r.next == 0,
            forall|p: Seq<u8>| (#[trigger] r.linked.of(p)) is None,
            forall|p: Seq<u8>| (#[trigger] r.since.of(p)) is None,
            forall|p: Seq<u8>| (#[trigger] r.tries.of(p)) is None,
            forall|p: Seq<u8>| (#[trigger] r.after.of(p)) is None,
    {
        Phones {
            wanted: None,
            linked: PerPhone::new(),
            since: PerPhone::new(),
            tries: PerPhone::new(),
            after: PerPhone::new(),
            next: 0,
        }
    }

    /// Nobody has used its quick tries up and still has them counted.
    pub open spec fn wf(&self) -> bool {
        forall|p: Seq<u8>| (#[trigger] self.tries.of(p)) matches Some(n) ==> n < RING_FAST_TRIES
    }

    /// Who is paged: whom the host named, if it did, else every bond.
    pub open spec fn paged(&self, bonds: Seq<Vec<u8>>) -> Seq<Seq<u8>> {
        match self.wanted {
            Some(list) => addresses(list@),
            None => bonded(bonds),
        }
    }

    /// Who to page, from the host if it has said, else every bond.
    pub fn targets(&self, bonds: &Vec<Vec<u8>>) -> (out: Vec<[u8; 6]>)
        ensures
            addresses(out@) == self.paged(bonds@),
    {
        let mut out: Vec<[u8; 6]> = Vec::new();
        match &self.wanted {
            Some(list) => {
                let mut i: usize = 0;
                while i < list.len()
                    invariant
                        i <= list@.len(),
                        out@ == list@.take(i as int),
                    decreases list@.len() - i,
                {
                    out.push(list[i]);
                    i += 1;
                    assert(out@ =~= list@.take(i as int));
                }
                assert(out@ =~= list@);
            },
            None => {
                let mut i: usize = 0;
                assert(addresses(out@) =~= bonded(bonds@.take(0)));
                while i < bonds.len()
                    invariant
                        i <= bonds@.len(),
                        addresses(out@) == bonded(bonds@.take(i as int)),
                    decreases bonds@.len() - i,
                {
                    assert(bonds@.take(i + 1).drop_last() =~= bonds@.take(i as int));
                    let ghost before = addresses(out@);
                    let b = &bonds[i];
                    if b.len() >= 6 {
                        let a = [b[0], b[1], b[2], b[3], b[4], b[5]];
                        assert(a@ =~= b@.take(6));
                        out.push(a);
                        assert(addresses(out@) =~= before.push(a@));
                    }
                    i += 1;
                }
                assert(bonds@.take(i as int) =~= bonds@);
            },
        }
        out
    }

    /// The next phone in the rotation, and whether it is on the air. What was counted for phones
    /// that are no longer paged goes.
    pub fn turn(&mut self, bonds: &Vec<Vec<u8>>) -> (r: Option<([u8; 6], bool)>)
        requires
            old(self).wf(),
        ensures
            final(self).wf(),
            ({
                let list = old(self).paged(bonds@);
                match r {
                    Some((phone, linked)) => {
                        &&& list.len() > 0
                        &&& phone@ == list[old(self).next as int % list.len() as int]
                        &&& linked == (old(self).linked.of(phone@) is Some)
                        &&& final(self).next == advanced(old(self).next)
                    },
                    None => list.len() == 0 && final(self).next == old(self).next,
                }
            }),
            final(self).wanted == old(self).wanted,
            final(self).linked == old(self).linked,
            final(self).since == old(self).since,
            forall|p: Seq<u8>| #[trigger] final(self).tries.of(p)
                == (if old(self).paged(bonds@).contains(p) { old(self).tries.of(p) } else { None }),
            forall|p: Seq<u8>| #[trigger] final(self).after.of(p)
                == (if old(self).paged(bonds@).contains(p) { old(self).after.of(p) } else { None }),
    {
        let list = self.targets(bonds);
        let ghost was = *self;
        self.tries.retain(&list);
        self.after.retain(&list);
        proof {
            assert forall|p: Seq<u8>| #[trigger] self.tries.of(p)
                == (if was.paged(bonds@).contains(p) { was.tries.of(p) } else { None }) by {
                listed_is_contained(list@, p);
            }
            assert forall|p: Seq<u8>| #[trigger] self.after.of(p)
                == (if was.paged(bonds@).contains(p) { was.after.of(p) } else { None }) by {
                listed_is_contained(list@, p);
            }
        }
        if list.len() == 0 {
            return None;
        }
        assert((self.next as int) % (list@.len() as int) < list@.len()) by (nonlinear_arith)
            requires list@.len() > 0;
        let at: usize = self.next % list.len();
        let phone = list[at];
        assert(addresses(list@)[at as int] == phone@);
        self.next = if self.next == usize::MAX { 0 } else { self.next + 1 };
        let linked = self.linked.get(&phone).is_some();
        Some((phone, linked))
    }

    /// One tick of the rotation: the phone whose turn it is is paged, unless it waits for its
    /// slow try, or disconnected where it held the link too long without a session.
    pub fn ring(&mut self, offered: bool, bonds: &Vec<Vec<u8>>, now: u64) -> (r: Ring)
        requires
            old(self).wf(),
        ensures
            final(self).wf(),
            !offered ==> r is Idle && *final(self) == *old(self),
            final(self).wanted == old(self).wanted,
            final(self).linked == old(self).linked,
            offered ==> {
                let list = old(self).paged(bonds@);
                let phone = list[old(self).next as int % list.len() as int];
                let held = old(self).since.of(phone) matches Some(t) && t + STALE <= now;
                let waits = old(self).after.of(phone) matches Some(t) && now < t;
                match r {
                    Ring::Idle => {
                        &&& final(self).since == old(self).since
                        &&& list.len() > 0 ==> if old(self).linked.of(phone) is Some { !held } else { waits }
                    },
                    Ring::Disconnect(who) => {
                        &&& list.len() > 0
                        &&& who@ == phone
                        &&& old(self).linked.of(phone) is Some
                        &&& held
                        &&& forall|p: Seq<u8>| #[trigger] final(self).since.of(p)
                            == (if p == phone { None } else { old(self).since.of(p) })
                    },
                    Ring::Page(who) => {
                        &&& list.len() > 0
                        &&& who@ == phone
                        &&& old(self).linked.of(phone) is None
                        &&& !waits
                        &&& final(self).since == old(self).since
                    },
                }
            },
            offered ==> forall|p: Seq<u8>| #[trigger] final(self).tries.of(p)
                == (if old(self).paged(bonds@).contains(p) { old(self).tries.of(p) } else { None }),
            offered ==> forall|p: Seq<u8>| #[trigger] final(self).after.of(p)
                == (if old(self).paged(bonds@).contains(p) { old(self).after.of(p) } else { None }),
            offered ==> final(self).next == (if old(self).paged(bonds@).len() == 0 {
                old(self).next
            } else {
                advanced(old(self).next)
            }),
    {
        if !offered {
            return Ring::Idle;
        }
        let ghost was = *self;
        let (phone, connected): ([u8; 6], bool) = match self.turn(bonds) {
            Some(x) => x,
            None => {
                return Ring::Idle;
            },
        };
        if connected {
            let held = match self.since.get(&phone) {
                Some(t) => now >= t && now - t >= STALE,
                None => false,
            };
            if held {
                self.since.remove(&phone);
                return Ring::Disconnect(phone);
            }
            return Ring::Idle;
        }
        proof {
            let list = was.paged(bonds@);
            let at = was.next as int % list.len() as int;
            assert(0 <= at < list.len()) by (nonlinear_arith)
                requires at == was.next as int % list.len() as int, list.len() > 0, was.next >= 0;
            assert(list[at] == phone@);
            assert(list.contains(phone@));
        }
        let waits = match self.after.get(&phone) {
            Some(t) => now < t,
            None => false,
        };
        if waits {
            return Ring::Idle;
        }
        Ring::Page(phone)
    }

    /// A paged phone did not answer. After its quick tries it is left alone for longer, and its
    /// count starts over.
    pub fn unanswered(&mut self, phone: [u8; 6], now: u64)
        requires
            old(self).wf(),
            now + RING_SLOW <= u64::MAX,
        ensures
            final(self).wf(),
            ({
                let n = match old(self).tries.of(phone@) {
                    Some(n) => n + 1,
                    None => 1,
                };
                let spent = n >= RING_FAST_TRIES;
                &&& forall|p: Seq<u8>| #[trigger] final(self).tries.of(p) == (if p != phone@ {
                    old(self).tries.of(p)
                } else if spent {
                    None
                } else {
                    Some(n as u64)
                })
                &&& forall|p: Seq<u8>| #[trigger] final(self).after.of(p) == (if p == phone@ && spent {
                    Some((now + RING_SLOW) as u64)
                } else {
                    old(self).after.of(p)
                })
            }),
            final(self).wanted == old(self).wanted,
            final(self).linked == old(self).linked,
            final(self).since == old(self).since,
            final(self).next == old(self).next,
    {
        let n: u64 = match self.tries.get(&phone) {
            Some(n) => n + 1,
            None => 1,
        };
        if n >= RING_FAST_TRIES {
            self.tries.remove(&phone);
            self.after.insert(phone, now + RING_SLOW);
        } else {
            self.tries.insert(phone, n);
        }
    }

    /// A paged phone answered: nothing is counted for it any more.
    pub fn answered(&mut self, phone: [u8; 6])
        requires
            old(self).wf(),
        ensures
            final(self).wf(),
            forall|p: Seq<u8>| #[trigger] final(self).tries.of(p) == (if p == phone@ { None } else { old(self).tries.of(p) }),
            forall|p: Seq<u8>| #[trigger] final(self).after.of(p) == (if p == phone@ { None } else { old(self).after.of(p) }),
            final(self).wanted == old(self).wanted,
            final(self).linked == old(self).linked,
            final(self).since == old(self).since,
            final(self).next == old(self).next,
    {
        self.tries.remove(&phone);
        self.after.remove(&phone);
    }

    /// A phone is on the air.
    pub fn connected(&mut self, phone: [u8; 6], now: u64)
        ensures
            forall|p: Seq<u8>| (#[trigger] final(self).linked.of(p)) is Some <==> (p == phone@ || old(self).linked.of(p) is Some),
            forall|p: Seq<u8>| #[trigger] final(self).since.of(p) == (if p == phone@ { Some(now) } else { old(self).since.of(p) }),
            final(self).wanted == old(self).wanted,
            final(self).tries == old(self).tries,
            final(self).after == old(self).after,
            final(self).next == old(self).next,
    {
        self.linked.insert(phone, 1);
        self.since.insert(phone, now);
    }

    /// A phone is off the air.
    pub fn disconnected(&mut self, phone: [u8; 6])
        ensures
            forall|p: Seq<u8>| #[trigger] final(self).linked.of(p) == (if p == phone@ { None } else { old(self).linked.of(p) }),
            forall|p: Seq<u8>| #[trigger] final(self).since.of(p) == (if p == phone@ { None } else { old(self).since.of(p) }),
            final(self).wanted == old(self).wanted,
            final(self).tries == old(self).tries,
            final(self).after == old(self).after,
            final(self).next == old(self).next,
    {
        self.linked.remove(&phone);
        self.since.remove(&phone);
    }
}

/// Where the rotation stands after some turns.
pub open spec fn turns_on(next: usize, k: nat) -> usize
    decreases k,
{
    if k == 0 { next } else { advanced(turns_on(next, (k - 1) as nat)) }
}

proof fn turns_add_up(next: usize, k: nat)
    requires
        next + k <= usize::MAX,
    ensures
        turns_on(next, k) == next + k,
    decreases k,
{
    if k > 0 {
        turns_add_up(next, (k - 1) as nat);
    }
}

/// Who a turn of the rotation hands out, with so many turns before it and the list unchanged.
pub open spec fn handed_out(p: Phones, bonds: Seq<Vec<u8>>, turns: nat) -> Seq<u8> {
    let list = p.paged(bonds);
    list[turns_on(p.next, turns) as int % list.len() as int]
}

proof fn place_reached(next: int, n: int, i: int) -> (k: int)
    requires
        0 <= next,
        0 <= i < n,
    ensures
        0 <= k < n,
        (next + k) % n == i,
{
    lemma_fundamental_div_mod(next, n);
    let q = next / n;
    let r = next % n;
    assert(0 <= r < n) by (nonlinear_arith)
        requires r == next % n, n > 0;
    if i >= r {
        let k = i - r;
        assert(next + k == q * n + i) by (nonlinear_arith)
            requires next == n * q + r, k == i - r;
        lemma_fundamental_div_mod_converse(next + k, n, q, i);
        k
    } else {
        let k = i - r + n;
        assert(next + k == (q + 1) * n + i) by (nonlinear_arith)
            requires next == n * q + r, k == i - r + n;
        lemma_fundamental_div_mod_converse(next + k, n, q + 1, i);
        k
    }
}

/// The rotation hands out every phone in turn: within as many turns as there are phones, each
/// comes up, as long as the counter does not start over in between.
pub proof fn the_rotation_reaches_everyone(p: Phones, bonds: Seq<Vec<u8>>, i: int) -> (k: nat)
    requires
        0 <= i < p.paged(bonds).len(),
        p.next + p.paged(bonds).len() <= usize::MAX,
    ensures
        k < p.paged(bonds).len(),
        handed_out(p, bonds, k) == p.paged(bonds)[i],
{
    let k = place_reached(p.next as int, p.paged(bonds).len() as int, i);
    turns_add_up(p.next, k as nat);
    k as nat
}

proof fn places_differ(next: int, n: int, j: int, k: int)
    requires
        0 <= next,
        0 <= j < k < n,
    ensures
        (next + j) % n != (next + k) % n,
{
    lemma_fundamental_div_mod(next + j, n);
    let q = (next + j) / n;
    let r = (next + j) % n;
    let d = k - j;
    assert(0 <= r < n) by (nonlinear_arith)
        requires r == (next + j) % n, n > 0;
    if r + d < n {
        assert(next + k == q * n + (r + d)) by (nonlinear_arith)
            requires next + j == n * q + r, d == k - j;
        lemma_fundamental_div_mod_converse(next + k, n, q, r + d);
    } else {
        assert(next + k == (q + 1) * n + (r + d - n)) by (nonlinear_arith)
            requires next + j == n * q + r, d == k - j;
        lemma_fundamental_div_mod_converse(next + k, n, q + 1, r + d - n);
    }
}

/// Within one round no place of the list comes up twice, so a phone that is listed once is handed
/// out once.
pub proof fn a_round_hands_out_each_once(p: Phones, bonds: Seq<Vec<u8>>, j: nat, k: nat)
    requires
        j < k < p.paged(bonds).len(),
        p.next + p.paged(bonds).len() <= usize::MAX,
    ensures
        turns_on(p.next, j) as int % p.paged(bonds).len() as int != turns_on(p.next, k) as int % p.paged(bonds).len() as int,
        p.paged(bonds).no_duplicates() ==> handed_out(p, bonds, j) != handed_out(p, bonds, k),
{
    let n = p.paged(bonds).len() as int;
    turns_add_up(p.next, j);
    turns_add_up(p.next, k);
    places_differ(p.next as int, n, j as int, k as int);
    let (a, b) = ((p.next + j) as int % n, (p.next + k) as int % n);
    assert(0 <= a < n && 0 <= b < n) by (nonlinear_arith)
        requires n > 0, a == (p.next + j) as int % n, b == (p.next + k) as int % n;
}

/// Two turns that follow one another hand out different places of the list, where it has two or
/// more: each phone that is listed once gives way to another.
pub proof fn the_rotation_moves_on(p: Phones, bonds: Seq<Vec<u8>>)
    requires
        p.paged(bonds).len() >= 2,
        p.paged(bonds).no_duplicates(),
        p.next < usize::MAX,
    ensures
        handed_out(p, bonds, 0) != handed_out(p, bonds, 1),
{
    let n = p.paged(bonds).len() as int;
    let next = p.next as int;
    turns_add_up(p.next, 0);
    turns_add_up(p.next, 1);
    lemma_fundamental_div_mod(next, n);
    let q = next / n;
    let r = next % n;
    assert(0 <= r < n) by (nonlinear_arith)
        requires r == next % n, n > 0;
    if r + 1 < n {
        assert(next + 1 == q * n + (r + 1)) by (nonlinear_arith)
            requires next == n * q + r;
        lemma_fundamental_div_mod_converse(next + 1, n, q, r + 1);
    } else {
        assert(next + 1 == (q + 1) * n + 0) by (nonlinear_arith)
            requires next == n * q + r, r + 1 == n;
        lemma_fundamental_div_mod_converse(next + 1, n, q + 1, 0);
    }
}

/// Every bond is paged by the six bytes at its front, in the order of the bonds, whatever stands beside
/// it.
pub proof fn every_bond_is_paged(a: Seq<Vec<u8>>, b: Vec<u8>, c: Seq<Vec<u8>>)
    ensures
        bonded(a + seq![b] + c) == bonded(a) + (if b@.len() >= 6 { seq![b@.subrange(0, 6)] } else { Seq::empty() }) + bonded(c),
        bonded(Seq::<Vec<u8>>::empty()).len() == 0,
    decreases c.len(),
{
    let s = a + seq![b] + c;
    let one = if b@.len() >= 6 { seq![b@.subrange(0, 6)] } else { Seq::<Seq<u8>>::empty() };
    assert(b@.len() >= 6 ==> b@.take(6) =~= b@.subrange(0, 6));
    if c.len() == 0 {
        assert(s.drop_last() =~= a);
        assert(s.last() == b);
        assert(bonded(s) =~= bonded(a) + one + bonded(c));
    } else {
        every_bond_is_paged(a, b, c.drop_last());
        assert(s.drop_last() =~= a + seq![b] + c.drop_last());
        assert(s.last() == c.last());
        assert(bonded(s) =~= bonded(a) + one + bonded(c));
    }
}

/// A phone has the number it was first entered with, and none where it was not entered.
pub proof fn a_phone_has_its_number(entries: Seq<([u8; 6], u64)>, phone: Seq<u8>, k: int)
    requires
        0 <= k <= entries.len(),
        forall|j: int| 0 <= j < k ==> (#[trigger] entries[j]).0@ != phone,
        k < entries.len() ==> entries[k].0@ == phone,
    ensures
        lookup(entries, phone) == (if k < entries.len() { Some(entries[k].1) } else { None }),
    decreases entries.len(),
{
    if k > 0 {
        let tail = entries.skip(1);
        assert(entries[0].0@ != phone);
        assert forall|j: int| 0 <= j < k - 1 implies (#[trigger] tail[j]).0@ != phone by {
            assert(tail[j] == entries[j + 1]);
        }
        a_phone_has_its_number(tail, phone, k - 1);
    }
}

/// A phone that does not answer is tried again until its fifteenth try. Then it is left alone for thirty
/// seconds from that try on, and starts over. One that answers starts over at once. Nobody else is
/// touched by either.
pub proof fn a_silent_phone_is_left_alone(before: Phones, phone: [u8; 6], other: Seq<u8>, now: u64)
    requires
        before.wf(),
        now + 30000 <= u64::MAX,
    ensures
        forall|p: &mut Phones, r: ()| #[trigger] call_ensures(Phones::unanswered, (p, phone, now), r) && *p == before ==> {
            let after = *final(p);
            &&& before.tries.of(phone@) == Some(14u64) ==> after.after.of(phone@) == Some((now + 30000) as u64)
                && after.tries.of(phone@) is None
            &&& before.tries.of(phone@) is None ==> after.tries.of(phone@) == Some(1u64)
                && after.after.of(phone@) == before.after.of(phone@)
            &&& before.tries.of(phone@) is Some && before.tries.of(phone@)->0 < 14
                ==> after.tries.of(phone@) == Some((before.tries.of(phone@)->0 + 1) as u64)
                && after.after.of(phone@) == before.after.of(phone@)
            &&& other != phone@ ==> after.tries.of(other) == before.tries.of(other)
                && after.after.of(other) == before.after.of(other)
        },
        forall|p: &mut Phones, r: ()| #[trigger] call_ensures(Phones::answered, (p, phone), r) && *p == before ==> {
            let after = *final(p);
            &&& after.tries.of(phone@) is None && after.after.of(phone@) is None
            &&& other != phone@ ==> after.tries.of(other) == before.tries.of(other)
                && after.after.of(other) == before.after.of(other)
        },
{
}

/// A tick of the rotation while the car is offered: whose turn it is is decided by the list and the counter.
/// One on the air is let go where it held the link for ten seconds, one off the air is paged unless it is to
/// be left alone by now, and nothing happens while the car is not offered.
pub proof fn what_a_tick_does(before: Phones, bonds: Vec<Vec<u8>>, now: u64, since: u64, until: u64)
    requires
        before.wf(),
        before.paged(bonds@).len() > 0,
    ensures
        forall|p: &mut Phones, r: Ring| #[trigger] call_ensures(Phones::ring, (p, true, &bonds, now), r) && *p == before ==> {
            let list = before.paged(bonds@);
            let who = list[before.next as int % list.len() as int];
            let linked = before.linked.of(who) is Some;
            &&& linked && before.since.of(who) == Some(since) && now >= since + 10000 ==> (r matches Ring::Disconnect(x) && x@ == who)
            &&& linked && before.since.of(who) == Some(since) && now < since + 10000 ==> r is Idle
            &&& linked && before.since.of(who) is None ==> r is Idle
            &&& !linked && before.after.of(who) is None ==> (r matches Ring::Page(x) && x@ == who)
            &&& !linked && before.after.of(who) == Some(until) && now >= until ==> (r matches Ring::Page(x) && x@ == who)
            &&& !linked && before.after.of(who) == Some(until) && now < until ==> r is Idle
        },
        forall|p: &mut Phones, r: Ring| #[trigger] call_ensures(Phones::ring, (p, false, &bonds, now), r) && *p == before
            ==> r is Idle && *final(p) == before,
{
}

/// A phone is on the air from when it connected to when it disconnected, and no other is touched.
pub proof fn who_is_on_the_air(before: Phones, phone: [u8; 6], now: u64, other: Seq<u8>)
    requires
        other != phone@,
    ensures
        forall|p: &mut Phones, r: ()| #[trigger] call_ensures(Phones::connected, (p, phone, now), r) && *p == before ==> {
            let after = *final(p);
            &&& after.linked.of(phone@) is Some && after.since.of(phone@) == Some(now)
            &&& (after.linked.of(other) is Some) == (before.linked.of(other) is Some)
            &&& after.since.of(other) == before.since.of(other)
        },
        forall|p: &mut Phones, r: ()| #[trigger] call_ensures(Phones::disconnected, (p, phone), r) && *p == before ==> {
            let after = *final(p);
            &&& after.linked.of(phone@) is None && after.since.of(phone@) is None
            &&& after.linked.of(other) == before.linked.of(other)
            &&& after.since.of(other) == before.since.of(other)
        },
{
}

} // verus!
