//! Wired CarPlay: which phones on the bus get a session, and when one is over.

use vstd::prelude::*;
use vstd::string::StringSliceAdditionalSpecFns;
use vstd::utf8::is_char_boundary;

use crate::names::{holds, kept, kept_are_in_both, missing, one_more, part, parted_once, push_contains, remove, without};
use crate::names::{without_once, Tally};
use crate::ncm::NcmBridge;
use crate::text::{dec, put_dec, views};

verus! {

/// A device that keeps failing the config probe is no iPhone.
pub const GIVE_UP_ATTEMPTS: u64 = 3;

/// How many packets of a wired session may be out without an answer.
pub const MAX_OUTGOING: u8 = 4;
/// The version of the control protocol a wired session speaks.
pub const CONTROL_VERSION: u8 = 2;
/// The option of the link that is switched on for a wired session.
pub const ZERO_ACK: bool = true;

/// How many bytes of a serial are shown.
pub open spec fn shown(serial: &str) -> int {
    if serial.spec_bytes().len() < 8 { serial.spec_bytes().len() as int } else { 8 }
}

/// The first eight bytes of a serial, for the log.
pub fn short(serial: &str) -> (r: &str)
    requires
        is_char_boundary(serial.spec_bytes(), shown(serial)),
    ensures
        r.spec_bytes() == serial.spec_bytes().take(shown(serial)),
{
    let n: usize = if serial.as_bytes().len() < 8 { serial.as_bytes().len() } else { 8 };
    let (front, _rest) = serial.split_at(n);
    assert(front.spec_bytes() =~= serial.spec_bytes().take(shown(serial)));
    front
}

/// What tells the app that a wired phone is gone.
pub fn gone_json(serial: &str) -> (out: String)
    ensures
        out@ == "{\"type\":\"device-gone\",\"src\":\"carkit\",\"usbUdid\":\""@ + serial@ + "\"}"@,
{
    let mut out = "{\"type\":\"device-gone\",\"src\":\"carkit\",\"usbUdid\":\"".to_owned();
    out.append(serial);
    out.append("\"}");
    out
}

/// The phones with a session, and how often each other one failed to open.
pub struct Watch {
    /// A phone stays here while its session runs.
    pub running: Vec<String>,
    pub failed: Tally,
}

/// What a scan of the bus asks for.
pub struct Scan {
    /// Left the bus, or went with the link: their sessions are cancelled and the app is told.
    pub unplugged: Vec<String>,
    /// To be opened, each as long as it is not given up by then.
    pub attempt: Vec<String>,
}

/// Whether a phone is ignored until it is plugged in again.
pub open spec fn given_up(failed: Tally, serial: Seq<char>) -> bool {
    failed.of(serial) matches Some(n) && n >= GIVE_UP_ATTEMPTS
}

/// The phones of a list that have no session and are not given up.
pub open spec fn openable(present: Seq<Seq<char>>, running: Seq<Seq<char>>, failed: Tally) -> Seq<Seq<char>>
    decreases present.len(),
{
    if present.len() == 0 {
        Seq::empty()
    } else if running.contains(present.last()) || given_up(failed, present.last()) {
        openable(present.drop_last(), running, failed)
    } else {
        openable(present.drop_last(), running, failed).push(present.last())
    }
}

impl Watch {
    /// No phone seen yet.
    pub fn new() -> (r: Self)
        ensures
            views(r.running@) == Seq::<Seq<char>>::empty(),
            forall|n: Seq<char>| (#[trigger] r.failed.of(n)) is None,
            r.wf(),
    {
        let r = Watch { running: Vec::new(), failed: Tally::new() };
        assert(views(r.running@) =~= Seq::<Seq<char>>::empty());
        r
    }

    /// No phone has two sessions.
    pub open spec fn wf(&self) -> bool {
        views(self.running@).no_duplicates()
    }

    /// The link is gone, and with it the authentication: every phone is retired until it is back.
    pub fn link_gone(&mut self) -> (retired: Vec<String>)
        requires
            old(self).wf(),
        ensures
            final(self).wf(),
            views(retired@) == views(old(self).running@),
            views(final(self).running@) == Seq::<Seq<char>>::empty(),
            final(self).failed == old(self).failed,
    {
        let mut retired: Vec<String> = Vec::new();
        let mut i: usize = 0;
        let ghost all = views(self.running@);
        while i < self.running.len()
            invariant
                i <= self.running@.len(),
                *self == *old(self),
                all == views(self.running@),
                views(retired@) == all.take(i as int),
            decreases self.running@.len() - i,
        {
            let ghost before = views(retired@);
            retired.push(self.running[i].clone());
            assert(views(retired@) =~= before.push(all[i as int]));
            i += 1;
            assert(views(retired@) =~= all.take(i as int));
        }
        assert(views(retired@) =~= all);
        self.running = Vec::new();
        assert(views(self.running@) =~= Seq::<Seq<char>>::empty());
        retired
    }

    /// The phones a scan found. What was counted for phones that left goes, those that left are
    /// retired, each once, and the ones without a session are to be opened unless they are given up.
    pub fn scan(&mut self, present: &Vec<String>) -> (r: Scan)
        requires
            old(self).wf(),
        ensures
            final(self).wf(),
            views(r.unplugged@).no_duplicates(),
            ({
                let here = views(present@);
                let before = views(old(self).running@);
                &&& views(r.unplugged@) == missing(before, here)
                &&& views(final(self).running@) == kept(before, here)
                &&& forall|n: Seq<char>| #[trigger] final(self).failed.of(n)
                    == (if here.contains(n) { old(self).failed.of(n) } else { None })
                &&& views(r.attempt@) == openable(here, kept(before, here), final(self).failed)
            }),
    {
        proof {
            parted_once(views(self.running@), views(present@));
        }
        self.failed.retain(present);
        let (still, unplugged) = part(&self.running, present);
        self.running = still;
        let ghost here = views(present@);
        let mut attempt: Vec<String> = Vec::new();
        let mut i: usize = 0;
        assert(views(attempt@) =~= openable(here.take(0), views(self.running@), self.failed));
        while i < present.len()
            invariant
                i <= present@.len(),
                here == views(present@),
                views(attempt@) == openable(here.take(i as int), views(self.running@), self.failed),
            decreases present@.len() - i,
        {
            assert(here[i as int] == present@[i as int]@);
            assert(here.take(i + 1).drop_last() =~= here.take(i as int));
            let ghost before = views(attempt@);
            let hopeless = match self.failed.get(present[i].as_str()) {
                Some(n) => n >= GIVE_UP_ATTEMPTS,
                None => false,
            };
            if !holds(&self.running, present[i].as_str()) && !hopeless {
                attempt.push(present[i].clone());
                assert(views(attempt@) =~= before.push(here[i as int]));
            }
            i += 1;
        }
        assert(here.take(i as int) =~= here);
        Scan { unplugged, attempt }
    }

    /// One round of the watch: whether the link is there, and the phones a scan found, where it got
    /// through. Without the link every phone is retired. A scan that did not get through on a link
    /// that is there is a hiccup, on which nothing is retired and nothing is opened.
    pub fn round(&mut self, link: bool, found: &Option<Vec<String>>) -> (r: Scan)
        requires
            old(self).wf(),
        ensures
            final(self).wf(),
            views(r.unplugged@).no_duplicates(),
            !link ==> {
                &&& views(r.unplugged@) == views(old(self).running@)
                &&& views(r.attempt@) == Seq::<Seq<char>>::empty()
                &&& views(final(self).running@) == Seq::<Seq<char>>::empty()
                &&& final(self).failed == old(self).failed
            },
            link && found is None ==> {
                &&& views(r.unplugged@) == Seq::<Seq<char>>::empty()
                &&& views(r.attempt@) == Seq::<Seq<char>>::empty()
                &&& *final(self) == *old(self)
            },
            link && found is Some ==> {
                let here = views(found->0@);
                let before = views(old(self).running@);
                &&& views(r.unplugged@) == missing(before, here)
                &&& views(final(self).running@) == kept(before, here)
                &&& forall|n: Seq<char>| #[trigger] final(self).failed.of(n)
                    == (if here.contains(n) { old(self).failed.of(n) } else { None })
                &&& views(r.attempt@) == openable(here, kept(before, here), final(self).failed)
            },
    {
        if !link {
            let unplugged = self.link_gone();
            let attempt: Vec<String> = Vec::new();
            assert(views(attempt@) =~= Seq::<Seq<char>>::empty());
            return Scan { unplugged, attempt };
        }
        match found {
            Some(present) => self.scan(present),
            None => {
                let r = Scan { unplugged: Vec::new(), attempt: Vec::new() };
                assert(views(r.unplugged@) =~= Seq::<Seq<char>>::empty());
                assert(views(r.attempt@) =~= Seq::<Seq<char>>::empty());
                r
            },
        }
    }

    /// Whether a phone is still to be tried: it was not given up meanwhile. A serial that is on the
    /// bus twice may be.
    pub fn may_try(&self, serial: &str) -> (r: bool)
        ensures
            r == !given_up(self.failed, serial@),
    {
        match self.failed.get(serial) {
            Some(n) => n < GIVE_UP_ATTEMPTS,
            None => true,
        }
    }

    /// A phone opened: its failures are forgotten, and it has a session, one for its serial.
    pub fn opened(&mut self, serial: &str)
        requires
            old(self).wf(),
        ensures
            final(self).wf(),
            views(final(self).running@) == (if views(old(self).running@).contains(serial@) {
                views(old(self).running@)
            } else {
                views(old(self).running@).push(serial@)
            }),
            forall|n: Seq<char>| #[trigger] final(self).failed.of(n)
                == (if n == serial@ { None } else { old(self).failed.of(n) }),
    {
        let ghost before = views(self.running@);
        self.failed.remove(serial);
        if !holds(&self.running, serial) {
            self.running.push(serial.to_owned());
            assert(views(self.running@) =~= before.push(serial@));
            proof {
                one_more(before, serial@);
            }
        }
    }

    /// A phone did not open. Says how often that happened, and whether it is given up now.
    pub fn refused(&mut self, serial: &str) -> (r: (u64, bool))
        requires
            old(self).wf(),
            old(self).failed.of(serial@) matches Some(n) ==> n < u32::MAX,
        ensures
            final(self).wf(),
            r.0 == (match old(self).failed.of(serial@) {
                Some(n) => n + 1,
                None => 1,
            }),
            r.1 == (r.0 >= GIVE_UP_ATTEMPTS),
            forall|n: Seq<char>| #[trigger] final(self).failed.of(n)
                == (if n == serial@ { Some(r.0) } else { old(self).failed.of(n) }),
            final(self).running == old(self).running,
    {
        let n: u64 = match self.failed.get(serial) {
            Some(n) => n + 1,
            None => 1,
        };
        self.failed.insert(serial, n);
        (n, n >= GIVE_UP_ATTEMPTS)
    }

    /// A session is over.
    pub fn ended(&mut self, serial: &str)
        requires
            old(self).wf(),
        ensures
            final(self).wf(),
            views(final(self).running@) == without(views(old(self).running@), serial@),
            final(self).failed == old(self).failed,
    {
        proof {
            without_once(views(self.running@), serial@);
        }
        remove(&mut self.running, serial);
    }
}

/// A phone that is given up is not opened again while it stays on the bus, and is as new once it
/// was unplugged.
pub proof fn a_given_up_phone_waits_for_a_replug(before: Watch, after: Watch, here: Seq<Seq<char>>, serial: Seq<char>)
    requires
        forall|n: Seq<char>| #[trigger] after.failed.of(n) == (if here.contains(n) { before.failed.of(n) } else { None }),
    ensures
        here.contains(serial) && given_up(before.failed, serial)
            ==> !openable(here, kept(views(before.running@), here), after.failed).contains(serial),
        !here.contains(serial) ==> !given_up(after.failed, serial),
{
    let running = kept(views(before.running@), here);
    if here.contains(serial) && given_up(before.failed, serial) {
        openable_holds(here, running, after.failed, serial);
    }
}

proof fn openable_holds(present: Seq<Seq<char>>, running: Seq<Seq<char>>, failed: Tally, serial: Seq<char>)
    ensures
        openable(present, running, failed).contains(serial)
            == (present.contains(serial) && !running.contains(serial) && !given_up(failed, serial)),
    decreases present.len(),
{
    if present.len() > 0 {
        let front = present.drop_last();
        openable_holds(front, running, failed, serial);
        push_contains(openable(front, running, failed), present.last(), serial);
        push_contains(front, present.last(), serial);
        assert(front.push(present.last()) =~= present);
    }
}

/// A phone on the bus either has a session, or is opened, or is given up. One that left has none.
pub proof fn every_phone_is_accounted_for(running: Seq<Seq<char>>, here: Seq<Seq<char>>, failed: Tally, serial: Seq<char>)
    ensures
        here.contains(serial) ==> kept(running, here).contains(serial)
            || openable(here, kept(running, here), failed).contains(serial) || given_up(failed, serial),
        !here.contains(serial) ==> !kept(running, here).contains(serial)
            && !openable(here, kept(running, here), failed).contains(serial),
        running.contains(serial) && !here.contains(serial) ==> missing(running, here).contains(serial),
{
    kept_are_in_both(running, here, serial);
    openable_holds(here, kept(running, here), failed, serial);
}

/// The phones on a port of this machine, one attempt each for as long as they are plugged in.
pub struct Plugged {
    pub active: Vec<String>,
}

/// The names of a list that are not to be done again and still there.
pub open spec fn staying(active: Seq<Seq<char>>, redo: Seq<Seq<char>>, here: Seq<Seq<char>>) -> Seq<Seq<char>> {
    kept(missing(active, redo), here)
}

/// The devices that are not in a list yet, each once.
pub open spec fn fresh(devices: Seq<Seq<char>>, active: Seq<Seq<char>>) -> Seq<Seq<char>>
    decreases devices.len(),
{
    if devices.len() == 0 {
        Seq::empty()
    } else {
        let front = fresh(devices.drop_last(), active);
        if active.contains(devices.last()) || front.contains(devices.last()) {
            front
        } else {
            front.push(devices.last())
        }
    }
}

/// What is fresh stands once, and not in the list already.
proof fn fresh_once(devices: Seq<Seq<char>>, active: Seq<Seq<char>>)
    requires
        active.no_duplicates(),
    ensures
        (active + fresh(devices, active)).no_duplicates(),
        fresh(devices, active).no_duplicates(),
    decreases devices.len(),
{
    if devices.len() > 0 {
        let front = fresh(devices.drop_last(), active);
        fresh_once(devices.drop_last(), active);
        if !active.contains(devices.last()) && !front.contains(devices.last()) {
            sum_contains(active, front, devices.last());
            one_more(front, devices.last());
            one_more(active + front, devices.last());
            assert(active + front.push(devices.last()) =~= (active + front).push(devices.last()));
        }
    } else {
        assert(active + fresh(devices, active) =~= active);
    }
}

impl Plugged {
    /// No phone has two sessions.
    pub open spec fn wf(&self) -> bool {
        views(self.active@).no_duplicates()
    }

    pub fn new() -> (r: Self)
        ensures
            r.wf(),
            views(r.active@) == Seq::<Seq<char>>::empty(),
    {
        let r = Plugged { active: Vec::new() };
        assert(views(r.active@) =~= Seq::<Seq<char>>::empty());
        r
    }

    /// The devices a scan found, and those whose session is to be done again. Those that left are
    /// reported; one that is to be done again is dropped without a word. Returns who left and who
    /// is to be opened.
    pub fn scan(&mut self, devices: &Vec<String>, redo: &Vec<String>) -> (r: (Vec<String>, Vec<String>))
        requires
            old(self).wf(),
        ensures
            final(self).wf(),
            views(r.0@).no_duplicates(),
            views(r.1@).no_duplicates(),
            ({
                let here = views(devices@);
                let was = views(old(self).active@);
                let stay = staying(was, views(redo@), here);
                &&& views(r.0@) == missing(missing(was, views(redo@)), here)
                &&& views(r.1@) == fresh(here, stay)
                &&& views(final(self).active@) == stay + fresh(here, stay)
            }),
    {
        let (_again, rest) = part(&self.active, redo);
        let (mut stay, gone) = part(&rest, devices);
        let ghost here = views(devices@);
        let ghost kept_now = views(stay@);
        let mut new: Vec<String> = Vec::new();
        let mut i: usize = 0;
        assert(views(new@) =~= fresh(here.take(0), kept_now));
        assert(kept_now + views(new@) =~= kept_now);
        while i < devices.len()
            invariant
                i <= devices@.len(),
                here == views(devices@),
                views(new@) == fresh(here.take(i as int), kept_now),
                views(stay@) == kept_now + views(new@),
            decreases devices@.len() - i,
        {
            assert(here[i as int] == devices@[i as int]@);
            assert(here.take(i + 1).drop_last() =~= here.take(i as int));
            let ghost before = views(new@);
            let ghost all = views(stay@);
            proof {
                sum_contains(kept_now, before, here[i as int]);
            }
            if !holds(&stay, devices[i].as_str()) {
                stay.push(devices[i].clone());
                new.push(devices[i].clone());
                assert(views(new@) =~= before.push(here[i as int]));
                assert(views(stay@) =~= all.push(here[i as int]));
                assert(views(stay@) =~= kept_now + views(new@));
            }
            i += 1;
        }
        assert(here.take(i as int) =~= here);
        proof {
            let was = views(old(self).active@);
            parted_once(was, views(redo@));
            parted_once(missing(was, views(redo@)), here);
            fresh_once(here, kept_now);
        }
        self.active = stay;
        (gone, new)
    }

    /// One round of the watch: whether the link is there, the devices a scan found, where it got
    /// through, and those whose session is to be done again. Without the link every phone is retired.
    /// A scan that did not get through on a link that is there changes nothing. Returns who left and
    /// who is to be opened.
    pub fn round(&mut self, link: bool, found: &Option<Vec<String>>, redo: &Vec<String>) -> (r: (Vec<String>, Vec<String>))
        requires
            old(self).wf(),
        ensures
            final(self).wf(),
            views(r.0@).no_duplicates(),
            views(r.1@).no_duplicates(),
            !link ==> {
                &&& views(r.0@) == views(old(self).active@)
                &&& views(r.1@) == Seq::<Seq<char>>::empty()
                &&& views(final(self).active@) == Seq::<Seq<char>>::empty()
            },
            link && found is None ==> {
                &&& views(r.0@) == Seq::<Seq<char>>::empty()
                &&& views(r.1@) == Seq::<Seq<char>>::empty()
                &&& *final(self) == *old(self)
            },
            link && found is Some ==> {
                let here = views(found->0@);
                let was = views(old(self).active@);
                let stay = staying(was, views(redo@), here);
                &&& views(r.0@) == missing(missing(was, views(redo@)), here)
                &&& views(r.1@) == fresh(here, stay)
                &&& views(final(self).active@) == stay + fresh(here, stay)
            },
    {
        let none: Vec<String> = Vec::new();
        assert(views(none@) =~= Seq::<Seq<char>>::empty());
        if !link {
            return (self.link_gone(), none);
        }
        match found {
            Some(devices) => self.scan(devices, redo),
            None => {
                let gone: Vec<String> = Vec::new();
                assert(views(gone@) =~= Seq::<Seq<char>>::empty());
                (gone, none)
            },
        }
    }

    /// The link is gone: every session is cancelled and the app is told.
    pub fn link_gone(&mut self) -> (retired: Vec<String>)
        requires
            old(self).wf(),
        ensures
            final(self).wf(),
            views(retired@) == views(old(self).active@),
            views(final(self).active@) == Seq::<Seq<char>>::empty(),
    {
        let none: Vec<String> = Vec::new();
        let ghost was = views(self.active@);
        let (_kept, retired) = part(&self.active, &none);
        proof {
            missing_none(was);
            assert(views(none@) =~= Seq::<Seq<char>>::empty());
        }
        self.active = Vec::new();
        assert(views(self.active@) =~= Seq::<Seq<char>>::empty());
        retired
    }
}

proof fn missing_none(list: Seq<Seq<char>>)
    ensures
        missing(list, Seq::empty()) == list,
    decreases list.len(),
{
    if list.len() > 0 {
        missing_none(list.drop_last());
        assert(missing(list, Seq::empty()) =~= list);
    } else {
        assert(missing(list, Seq::empty()) =~= list);
    }
}

proof fn sum_contains(a: Seq<Seq<char>>, b: Seq<Seq<char>>, name: Seq<char>)
    ensures
        (a + b).contains(name) == (a.contains(name) || b.contains(name)),
{
    if a.contains(name) {
        let i = choose|i: int| 0 <= i < a.len() && a[i] == name;
        assert((a + b)[i] == name);
    }
    if b.contains(name) {
        let i = choose|i: int| 0 <= i < b.len() && b[i] == name;
        assert((a + b)[a.len() + i] == name);
    }
    if (a + b).contains(name) {
        let i = choose|i: int| 0 <= i < (a + b).len() && (a + b)[i] == name;
        if i < a.len() {
            assert(a[i] == name);
        } else {
            assert(b[i - a.len()] == name);
        }
    }
}

/// What is said of a phone that did not open.
pub fn refused_line(who: &str, n: u64, why: &str) -> (out: String)
    ensures
        out@ == (if n >= GIVE_UP_ATTEMPTS {
            "[wired] "@ + who@ + ": giving up after "@ + dec(n as nat) + " attempts ("@ + why@
                + ") — ignored until replug"@
        } else {
            "[wired] "@ + who@ + ": usbmux failed: "@ + why@
        }),
{
    let mut out = "[wired] ".to_owned();
    out.append(who);
    if n >= GIVE_UP_ATTEMPTS {
        out.append(": giving up after ");
        put_dec(&mut out, n);
        out.append(" attempts (");
        out.append(why);
        out.append(") — ignored until replug");
    } else {
        out.append(": usbmux failed: ");
        out.append(why);
    }
    out
}

/// Where the phone's USB network function shows up for a session.
pub enum LocalNcm {
    /// Phone on this machine's bus: brought up here.
    Local(NcmBridge),
    /// Phone on a dongle: bridged onto the interface facing it.
    Bridged(Option<String>),
}

impl LocalNcm {
    /// The interface the session's stream rides.
    pub open spec fn name(self) -> Option<Seq<char>> {
        match self {
            LocalNcm::Local(b) => Some(b.ifname@),
            LocalNcm::Bridged(Some(name)) => Some(name@),
            LocalNcm::Bridged(None) => None,
        }
    }

    /// The interface the session's stream rides.
    pub fn ifname(&self) -> (r: Option<String>)
        ensures
            match r {
                Some(n) => self.name() == Some(n@),
                None => self.name() is None,
            },
    {
        match self {
            LocalNcm::Local(b) => Some(b.ifname.clone()),
            LocalNcm::Bridged(name) => match name {
                Some(n) => Some(n.clone()),
                None => None,
            },
        }
    }

    /// Where the function shows up: bridged by the dongle where one serves the phone, else brought
    /// up here, as far as that works.
    pub fn choose_for(remote: bool, facing: Option<String>, local: Result<NcmBridge, String>) -> (r: LocalNcm)
        ensures
            r == (if remote {
                LocalNcm::Bridged(facing)
            } else {
                match local {
                    Ok(b) => LocalNcm::Local(b),
                    Err(_) => LocalNcm::Bridged(None),
                }
            }),
    {
        if remote {
            return LocalNcm::Bridged(facing);
        }
        match local {
            Ok(b) => LocalNcm::Local(b),
            Err(_) => LocalNcm::Bridged(None),
        }
    }
}

/// What is opened are the phones of a scan, in its order, but for those with a session and those that
/// failed three times.
pub proof fn what_is_opened(present: Seq<Seq<char>>, running: Seq<Seq<char>>, failed: Tally)
    ensures
        openable(present, running, failed) == present.filter(
            |s: Seq<char>| !running.contains(s) && !(failed.of(s) matches Some(n) && n >= 3),
        ),
    decreases present.len(),
{
    reveal(Seq::filter);
    if present.len() > 0 {
        what_is_opened(present.drop_last(), running, failed);
    } else {
        assert(openable(present, running, failed) =~= present.filter(
            |s: Seq<char>| !running.contains(s) && !(failed.of(s) matches Some(n) && n >= 3),
        ));
    }
}

/// What is fresh are the devices of a scan that are not served yet, each once.
pub proof fn what_is_fresh(devices: Seq<Seq<char>>, active: Seq<Seq<char>>, name: Seq<char>)
    ensures
        fresh(devices, active).contains(name) <==> devices.contains(name) && !active.contains(name),
        fresh(devices, active).no_duplicates(),
    decreases devices.len(),
{
    if devices.len() > 0 {
        let front = devices.drop_last();
        let last = devices.last();
        what_is_fresh(front, active, name);
        what_is_fresh(front, active, last);
        push_contains(fresh(front, active), last, name);
        push_contains(front, last, name);
        assert(devices =~= front.push(last));
        if !(active.contains(last) || fresh(front, active).contains(last)) {
            let f = fresh(front, active);
            let all = f.push(last);
            assert forall|i: int, j: int| 0 <= i < all.len() && 0 <= j < all.len() && i != j implies all[i] != all[j] by {
                if i < f.len() && j < f.len() {
                    assert(f[i] != f[j]);
                } else if i < f.len() {
                    assert(f.contains(f[i]));
                } else {
                    assert(f.contains(f[j]));
                }
            }
        }
    } else {
        assert(!fresh(devices, active).contains(name));
        assert(!devices.contains(name));
    }
}

/// A phone on a port is served from when it is found to when it leaves: what stays is what was served, is
/// still there and is not to be done again.
pub proof fn who_is_served(was: Seq<Seq<char>>, redo: Seq<Seq<char>>, here: Seq<Seq<char>>, name: Seq<char>)
    ensures
        ({
            let stay = staying(was, redo, here);
            let now = stay + fresh(here, stay);
            let left = missing(missing(was, redo), here);
            &&& now.contains(name) <==> here.contains(name)
            &&& left.contains(name) <==> was.contains(name) && !redo.contains(name) && !here.contains(name)
            &&& fresh(here, stay).contains(name) <==> here.contains(name) && !(was.contains(name) && !redo.contains(name))
        }),
{
    let stay = staying(was, redo, here);
    kept_are_in_both(missing(was, redo), here, name);
    kept_are_in_both(was, redo, name);
    kept_are_in_both(missing(was, redo), here, name);
    what_is_fresh(here, stay, name);
    sum_contains(stay, fresh(here, stay), name);
}

/// A phone that opens has its failures forgotten and a session, one whose session is over has none, and
/// what happens to it touches no other phone. A phone is given up from its third failure on.
pub proof fn a_phone_opens_and_ends(before: Watch, serial: &str, other: Seq<char>)
    requires
        before.wf(),
        other != serial@,
    ensures
        given_up(before.failed, other) <==> before.failed.of(other) is Some && before.failed.of(other)->0 >= 3,
        forall|w: &mut Watch, r: ()| #[trigger] call_ensures(Watch::opened, (w, serial), r) && *w == before ==> {
            let after = *final(w);
            &&& after.failed.of(serial@) is None
            &&& after.failed.of(other) == before.failed.of(other)
            &&& views(after.running@).contains(serial@)
            &&& views(after.running@).contains(other) == views(before.running@).contains(other)
        },
        forall|w: &mut Watch, r: ()| #[trigger] call_ensures(Watch::ended, (w, serial), r) && *w == before ==> {
            let after = *final(w);
            &&& !views(after.running@).contains(serial@)
            &&& views(after.running@).contains(other) == views(before.running@).contains(other)
            &&& after.failed == before.failed
        },
{
    let list = views(before.running@);
    push_contains(list, serial@, serial@);
    push_contains(list, serial@, other);
    crate::names::without_holds_the_others(list, serial@, serial@);
    crate::names::without_holds_the_others(list, serial@, other);
}

} // verus!
