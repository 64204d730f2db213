//! Android Auto over USB: which devices are switched to accessory mode, which are served, and
//! which are left alone.

use vstd::prelude::*;
use std::collections::{HashMap, HashSet};
use vstd::string::StringSliceAdditionalSpecFns;

use crate::bytes::{copy, get_le16, u16_le};
use crate::names::Tally;
use crate::text::{dec, put_dec, same_text};

verus! {

pub const GOOGLE_VID: u16 = 0x18d1;
pub const ACCESSORY_FIRST: u16 = 0x2d00;
pub const ACCESSORY_LAST: u16 = 0x2d05;
/// Android vendors whose devices are probed.
pub const PHONE_VENDORS: [u16; 16] = [
    0x0489, 0x04dd, 0x04e8, 0x0b05, 0x0bb4, 0x0e8d, 0x0fce, 0x1004, 0x109b, 0x12d1, 0x17ef,
    0x18d1, 0x19d2, 0x22b8, 0x2717, 0x2a70,
];
/// A class-0 device made only of these interface classes is not a phone.
pub const NON_PHONE_INTERFACE_CLASSES: [u8; 10] =
    [0x01, 0x02, 0x03, 0x07, 0x08, 0x09, 0x0a, 0x0b, 0x0e, 0xe0];
/// Wireless controllers share vendor ids with phones, no phone carries one.
pub const WIRELESS_CONTROLLER_CLASS: u8 = 0xe0;

pub const REQ_GET_PROTOCOL: u8 = 51;
pub const REQ_SEND_STRING: u8 = 52;
pub const REQ_START: u8 = 53;
/// What the phone is told about the host, by index. It matches on manufacturer and model.
pub const AOAP_STRINGS: [&'static str; 6] = [
    "Android", "Android Auto", "LIVI Wired Android Auto host", "2.0.1",
    "https://github.com/f-io/LIVI", "LIVI-0001",
];

/// The reset out of accessory mode re-enumerates the phone within this time, in milliseconds.
pub const RESET_WINDOW: u64 = 3000;
/// How often a reset is tried again that was refused while the interface was claimed.
pub const RESET_RETRIES: usize = 10;

/// How a session is named.
pub open spec fn session_label(serial: Seq<char>) -> Seq<char> {
    if serial.len() == 0 { "usb:phone"@ } else { "usb:"@ + serial }
}

/// How a session is named.
pub fn label(serial: &str) -> (out: String)
    ensures
        out@ == session_label(serial@),
{
    if serial.is_empty() {
        "usb:phone".to_owned()
    } else {
        let mut out = "usb:".to_owned();
        out.append(serial);
        out
    }
}

/// Whether a device is a phone in accessory mode.
pub fn is_accessory(vendor: u16, product: u16) -> (r: bool)
    ensures
        r == (vendor == GOOGLE_VID && ACCESSORY_FIRST <= product <= ACCESSORY_LAST),
{
    vendor == GOOGLE_VID && ACCESSORY_FIRST <= product && product <= ACCESSORY_LAST
}

/// Whether a device may be a phone: an Android vendor's class-0 or vendor-class device that is not
/// made only of non-phone interfaces and carries no wireless controller.
pub open spec fn may_be_phone(vendor: u16, class: u8, interfaces: Seq<u8>) -> bool {
    &&& PHONE_VENDORS@.contains(vendor)
    &&& class == 0x00 || class == 0xff
    &&& !interfaces.contains(WIRELESS_CONTROLLER_CLASS)
    &&& interfaces.len() == 0 || exists|i: int| 0 <= i < interfaces.len()
        && !NON_PHONE_INTERFACE_CLASSES@.contains(#[trigger] interfaces[i])
}

fn is_vendor(vendor: u16) -> (r: bool)
    ensures
        r == PHONE_VENDORS@.contains(vendor),
{
    let mut i: usize = 0;
    while i < 16
        invariant
            i <= 16,
            forall|j: int| 0 <= j < i ==> PHONE_VENDORS@[j] != vendor,
        decreases 16 - i,
    {
        if PHONE_VENDORS[i] == vendor {
            assert(PHONE_VENDORS@[i as int] == vendor);
            return true;
        }
        i += 1;
    }
    false
}

fn is_other(class: u8) -> (r: bool)
    ensures
        r == NON_PHONE_INTERFACE_CLASSES@.contains(class),
{
    let mut i: usize = 0;
    while i < 10
        invariant
            i <= 10,
            forall|j: int| 0 <= j < i ==> NON_PHONE_INTERFACE_CLASSES@[j] != class,
        decreases 10 - i,
    {
        if NON_PHONE_INTERFACE_CLASSES[i] == class {
            assert(NON_PHONE_INTERFACE_CLASSES@[i as int] == class);
            return true;
        }
        i += 1;
    }
    false
}

/// Whether a device may be a phone.
pub fn is_candidate(vendor: u16, class: u8, interfaces: &[u8]) -> (r: bool)
    ensures
        r == may_be_phone(vendor, class, interfaces@),
{
    if !is_vendor(vendor) {
        return false;
    }
    if class != 0x00 && class != 0xff {
        return false;
    }
    let mut phone = interfaces.len() == 0;
    let mut i: usize = 0;
    while i < interfaces.len()
        invariant
            i <= interfaces@.len(),
            forall|j: int| 0 <= j < i ==> interfaces@[j] != WIRELESS_CONTROLLER_CLASS,
            phone == (interfaces@.len() == 0 || exists|j: int| 0 <= j < i
                && !NON_PHONE_INTERFACE_CLASSES@.contains(#[trigger] interfaces@[j])),
        decreases interfaces@.len() - i,
    {
        let c: u8 = interfaces[i];
        if c == WIRELESS_CONTROLLER_CLASS {
            assert(interfaces@[i as int] == WIRELESS_CONTROLLER_CLASS);
            return false;
        }
        let other = is_other(c);
        if !other {
            assert(!NON_PHONE_INTERFACE_CLASSES@.contains(interfaces@[i as int]));
        }
        phone = phone || !other;
        i += 1;
    }
    phone
}

/// What to do about a device that showed up.
#[derive(PartialEq, Eq, Structural, Clone, Copy)]
pub enum Seen {
    Nothing,
    /// Parked since the main process closed it.
    Parked,
    /// An accessory, to be served.
    Serve,
    /// A phone candidate, to be switched to accessory mode.
    Switch,
}

/// The phones on the bus.
pub struct Phones {
    /// Devices being switched or serving a session.
    pub busy: HashSet<u64>,
    /// Devices whose probe failed, left alone until they re-enumerate.
    pub failed: HashSet<u64>,
    pub serial_of: HashMap<u64, String>,
    /// Serials the main process closed, not switched again until unplugged.
    pub parked: Tally,
    /// Serials being reset out of accessory mode, whose next disconnect is no unplug, with the
    /// time of the reset.
    pub resetting: Tally,
    /// Devices serving a session, which end it when they are unplugged.
    pub serving: Vec<u64>,
    /// Serials reset out of an earlier run's accessory mode.
    pub leftover: Tally,
}

/// What comes of a device that left.
pub struct Gone {
    /// Its session ends.
    pub cancel: bool,
    /// This serial is no longer parked.
    pub unparked: Option<String>,
}

/// What a device that showed up is to be done with.
pub open spec fn seen_as(p: Phones, id: u64, serial: Seq<char>, accessory: bool, candidate: bool) -> Seen {
    if (!accessory && !candidate) || p.busy@.contains(id) || p.failed@.contains(id) {
        Seen::Nothing
    } else if !candidate && p.leftover.of(serial) is Some {
        Seen::Nothing
    } else if candidate && p.parked.of(serial) is Some {
        Seen::Parked
    } else if accessory {
        Seen::Serve
    } else {
        Seen::Switch
    }
}

impl Phones {
    /// No device serves two sessions.
    pub open spec fn wf(&self) -> bool {
        self.serving@.no_duplicates()
    }

    pub fn new() -> (r: Self)
        ensures
            r.wf(),
            r.busy@ == Set::<u64>::empty(),
            r.failed@ == Set::<u64>::empty(),
            r.serial_of@ == Map::<u64, String>::empty(),
            r.serving@ == Seq::<u64>::empty(),
            forall|n: Seq<char>| (#[trigger] r.parked.of(n)) is None,
            forall|n: Seq<char>| (#[trigger] r.resetting.of(n)) is None,
            forall|n: Seq<char>| (#[trigger] r.leftover.of(n)) is None,
    {
        Phones {
            busy: HashSet::new(),
            failed: HashSet::new(),
            serial_of: HashMap::new(),
            parked: Tally::new(),
            resetting: Tally::new(),
            serving: Vec::new(),
            leftover: Tally::new(),
        }
    }

    /// A device showed up. A phone that is busy or failed its probe is left alone, and so is an
    /// accessory an earlier run left behind until it came back as a plain phone.
    pub fn seen(&mut self, id: u64, serial: &str, accessory: bool, candidate: bool) -> (r: Seen)
        requires
            old(self).wf(),
            !(accessory && candidate),
        ensures
            final(self).wf(),
            r == seen_as(*old(self), id, serial@, accessory, candidate),
            ({
                let known = (accessory || candidate) && !old(self).busy@.contains(id) && !old(self).failed@.contains(id);
                &&& final(self).busy@ == (if r is Serve || r is Switch { old(self).busy@.insert(id) } else { old(self).busy@ })
                &&& final(self).serving@ == (if r is Serve && !old(self).serving@.contains(id) {
                    old(self).serving@.push(id)
                } else {
                    old(self).serving@
                })
                &&& final(self).failed@ == old(self).failed@
                &&& final(self).parked == old(self).parked
                &&& final(self).resetting == old(self).resetting
                &&& forall|n: Seq<char>| #[trigger] final(self).leftover.of(n)
                    == (if known && candidate && n == serial@ { None } else { old(self).leftover.of(n) })
                &&& known && serial@.len() > 0 ==> final(self).serial_of@.dom() == old(self).serial_of@.dom().insert(id)
                    && final(self).serial_of@[id]@ == serial@
                    && forall|k: u64| k != id && old(self).serial_of@.dom().contains(k) ==>
                        #[trigger] final(self).serial_of@[k] == old(self).serial_of@[k]
                &&& !(known && serial@.len() > 0) ==> final(self).serial_of@ == old(self).serial_of@
            }),
    {
        broadcast use vstd::std_specs::hash::group_hash_axioms;
        if !accessory && !candidate {
            return Seen::Nothing;
        }
        if self.busy.contains(&id) || self.failed.contains(&id) {
            return Seen::Nothing;
        }
        if !serial.is_empty() {
            self.serial_of.insert(id, serial.to_owned());
        }
        if candidate {
            self.leftover.remove(serial);
        } else if self.leftover.get(serial).is_some() {
            return Seen::Nothing;
        }
        if candidate && self.parked.get(serial).is_some() {
            return Seen::Parked;
        }
        self.busy.insert(id);
        if accessory {
            if !self.serves(id) {
                self.serving.push(id);
            }
            Seen::Serve
        } else {
            Seen::Switch
        }
    }

    /// A device left the bus at a time. The reset out of accessory mode disconnects too. Anything
    /// later is the cable, and then the phone is no longer parked.
    pub fn gone(&mut self, id: u64, now: u64) -> (r: Gone)
        requires
            old(self).wf(),
        ensures
            final(self).wf(),
            r.cancel == old(self).serving@.contains(id),
            final(self).busy@ == old(self).busy@.remove(id),
            final(self).failed@ == old(self).failed@.remove(id),
            final(self).serving@ == old(self).serving@,
            final(self).serial_of@ == old(self).serial_of@.remove(id),
            final(self).leftover == old(self).leftover,
            ({
                let known = old(self).serial_of@.dom().contains(id);
                let serial = old(self).serial_of@[id]@;
                let reset = known && (old(self).resetting.of(serial) matches Some(at) && now <= at + RESET_WINDOW);
                let unpark = known && !reset && old(self).parked.of(serial) is Some;
                &&& match r.unparked {
                    Some(s) => unpark && s@ == serial,
                    None => !unpark,
                }
                &&& forall|n: Seq<char>| #[trigger] final(self).resetting.of(n)
                    == (if known && n == serial { None } else { old(self).resetting.of(n) })
                &&& forall|n: Seq<char>| #[trigger] final(self).parked.of(n)
                    == (if known && !reset && n == serial { None } else { old(self).parked.of(n) })
            }),
    {
        broadcast use vstd::std_specs::hash::group_hash_axioms;
        let cancel = self.serves(id);
        self.busy.remove(&id);
        self.failed.remove(&id);
        let serial: String = match self.serial_of.get(&id) {
            Some(s) => s.clone(),
            None => {
                assert(self.serial_of@.remove(id) =~= self.serial_of@);
                return Gone { cancel, unparked: None };
            },
        };
        self.serial_of.remove(&id);
        let at = self.resetting.get(serial.as_str());
        self.resetting.remove(serial.as_str());
        if let Some(t) = at {
            if now < t || now - t <= RESET_WINDOW {
                return Gone { cancel, unparked: None };
            }
        }
        let parked = self.parked.get(serial.as_str()).is_some();
        self.parked.remove(serial.as_str());
        Gone { cancel, unparked: if parked { Some(serial) } else { None } }
    }

    /// Whether a device serves a session.
    fn serves(&self, id: u64) -> (r: bool)
        ensures
            r == self.serving@.contains(id),
    {
        let mut i: usize = 0;
        while i < self.serving.len()
            invariant
                i <= self.serving@.len(),
                forall|j: int| 0 <= j < i ==> self.serving@[j] != id,
            decreases self.serving@.len() - i,
        {
            if self.serving[i] == id {
                assert(self.serving@[i as int] == id);
                return true;
            }
            i += 1;
        }
        false
    }

    /// An accessory of an earlier run is about to be reset.
    pub fn releasing(&mut self, serial: &str)
        requires
            old(self).wf(),
        ensures
            final(self).wf(),
            forall|n: Seq<char>| #[trigger] final(self).leftover.of(n)
                == (if serial@.len() > 0 && n == serial@ { Some(0u64) } else { old(self).leftover.of(n) }),
            final(self).busy == old(self).busy,
            final(self).failed == old(self).failed,
            final(self).serial_of == old(self).serial_of,
            final(self).parked == old(self).parked,
            final(self).resetting == old(self).resetting,
            final(self).serving == old(self).serving,
    {
        if !serial.is_empty() {
            self.leftover.insert(serial, 0);
        }
    }

    /// The reset of an accessory of an earlier run failed.
    pub fn release_failed(&mut self, serial: &str)
        requires
            old(self).wf(),
        ensures
            final(self).wf(),
            forall|n: Seq<char>| #[trigger] final(self).leftover.of(n)
                == (if n == serial@ { None } else { old(self).leftover.of(n) }),
            final(self).busy == old(self).busy,
            final(self).failed == old(self).failed,
            final(self).serial_of == old(self).serial_of,
            final(self).parked == old(self).parked,
            final(self).resetting == old(self).resetting,
            final(self).serving == old(self).serving,
    {
        self.leftover.remove(serial);
    }

    /// A session ended, and the phone is about to be reset out of accessory mode. One that the
    /// main process closed is parked.
    pub fn session_ended(&mut self, serial: &str, closed_by_node: bool, now: u64)
        requires
            old(self).wf(),
        ensures
            final(self).wf(),
            forall|n: Seq<char>| #[trigger] final(self).resetting.of(n)
                == (if serial@.len() > 0 && n == serial@ { Some(now) } else { old(self).resetting.of(n) }),
            forall|n: Seq<char>| #[trigger] final(self).parked.of(n)
                == (if serial@.len() > 0 && closed_by_node && n == serial@ { Some(0u64) } else { old(self).parked.of(n) }),
            final(self).busy == old(self).busy,
            final(self).failed == old(self).failed,
            final(self).serial_of == old(self).serial_of,
            final(self).leftover == old(self).leftover,
            final(self).serving == old(self).serving,
    {
        if !serial.is_empty() {
            if closed_by_node {
                self.parked.insert(serial, 0);
            }
            self.resetting.insert(serial, now);
        }
    }

    /// An accessory is no longer served.
    pub fn served(&mut self, id: u64)
        requires
            old(self).wf(),
        ensures
            final(self).wf(),
            final(self).busy@ == old(self).busy@.remove(id),
            final(self).serving@ == old(self).serving@.filter(|k: u64| k != id),
            final(self).failed == old(self).failed,
            final(self).serial_of == old(self).serial_of,
            final(self).parked == old(self).parked,
            final(self).resetting == old(self).resetting,
            final(self).leftover == old(self).leftover,
    {
        broadcast use vstd::std_specs::hash::group_hash_axioms;
        self.busy.remove(&id);
        let ghost all = self.serving@;
        let mut rest: Vec<u64> = Vec::new();
        let mut i: usize = 0;
        proof {
            reveal(Seq::filter);
        }
        assert(rest@ =~= all.take(0).filter(|k: u64| k != id));
        while i < self.serving.len()
            invariant
                i <= self.serving@.len(),
                self.serving@ == all,
                rest@ == all.take(i as int).filter(|k: u64| k != id),
            decreases self.serving@.len() - i,
        {
            proof {
                reveal(Seq::filter);
            }
            assert(all.take(i + 1).drop_last() =~= all.take(i as int));
            if self.serving[i] != id {
                rest.push(self.serving[i]);
            }
            i += 1;
        }
        assert(all.take(i as int) =~= all);
        proof {
            filtered_once(all, |k: u64| k != id);
        }
        self.serving = rest;
    }

    /// A switch to accessory mode was asked for, or failed.
    pub fn switched(&mut self, id: u64, ok: bool)
        requires
            old(self).wf(),
        ensures
            final(self).wf(),
            final(self).busy@ == old(self).busy@.remove(id),
            final(self).failed@ == (if ok { old(self).failed@ } else { old(self).failed@.insert(id) }),
            final(self).serving == old(self).serving,
            final(self).serial_of == old(self).serial_of,
            final(self).parked == old(self).parked,
            final(self).resetting == old(self).resetting,
            final(self).leftover == old(self).leftover,
    {
        broadcast use vstd::std_specs::hash::group_hash_axioms;
        if !ok {
            self.failed.insert(id);
        }
        self.busy.remove(&id);
    }

    /// Whether a device serves the session of a serial, or any session where none is named.
    pub open spec fn is_of(&self, id: u64, serial: Seq<char>) -> bool {
        serial.len() == 0 || (self.serial_of@.dom().contains(id) && self.serial_of@[id]@ == serial)
    }

    /// The devices whose sessions end when a serial is restarted, all of them where none is named,
    /// each once.
    pub fn restart(&self, serial: &str) -> (out: Vec<u64>)
        requires
            self.wf(),
        ensures
            out@.no_duplicates(),
            out@ == self.serving@.filter(|k: u64| self.is_of(k, serial@)),
    {
        broadcast use vstd::std_specs::hash::group_hash_axioms;
        let ghost all = self.serving@;
        let mut out: Vec<u64> = Vec::new();
        let mut i: usize = 0;
        proof {
            reveal(Seq::filter);
        }
        assert(out@ =~= all.take(0).filter(|k: u64| self.is_of(k, serial@)));
        while i < self.serving.len()
            invariant
                i <= self.serving@.len(),
                self.serving@ == all,
                out@ == all.take(i as int).filter(|k: u64| self.is_of(k, serial@)),
            decreases self.serving@.len() - i,
        {
            broadcast use vstd::std_specs::hash::group_hash_axioms;
            proof {
                reveal(Seq::filter);
            }
            assert(all.take(i + 1).drop_last() =~= all.take(i as int));
            let id: u64 = self.serving[i];
            let matches = serial.is_empty() || match self.serial_of.get(&id) {
                Some(s) => same_text(s.as_str(), serial),
                None => false,
            };
            if matches {
                out.push(id);
            }
            i += 1;
        }
        assert(all.take(i as int) =~= all);
        proof {
            filtered_once(all, |k: u64| self.is_of(k, serial@));
        }
        out
    }
}

/// What is picked out of a list that holds nothing twice holds nothing twice.
proof fn filtered_once(list: Seq<u64>, pick: spec_fn(u64) -> bool)
    requires
        list.no_duplicates(),
    ensures
        list.filter(pick).no_duplicates(),
        forall|k: u64| list.filter(pick).contains(k) ==> list.contains(k),
    decreases list.len(),
{
    reveal(Seq::filter);
    if list.len() > 0 {
        let front = list.drop_last();
        let picked = front.filter(pick);
        filtered_once(front, pick);
        assert forall|k: u64| list.filter(pick).contains(k) implies list.contains(k) by {
            let i = choose|i: int| 0 <= i < list.filter(pick).len() && list.filter(pick)[i] == k;
            if i < picked.len() {
                assert(picked[i] == k);
                assert(front.contains(k));
                let j = choose|j: int| 0 <= j < front.len() && front[j] == k;
                assert(list[j] == k);
            } else {
                assert(list[list.len() - 1] == k);
            }
        }
        if pick(list.last()) {
            assert forall|i: int| 0 <= i < picked.len() implies picked[i] != list.last() by {
                assert(front.filter(pick).contains(picked[i]));
                assert(front.contains(picked[i]));
                let j = choose|j: int| 0 <= j < front.len() && front[j] == picked[i];
                assert(list[j] == picked[i]);
            }
        }
    }
}

/// Where a device that showed up in accessory mode is.
#[derive(PartialEq, Eq, Structural, Clone, Copy)]
pub enum Accessory {
    /// Left over from an earlier run: it is put back into its plain mode, if that works.
    Release,
    /// Does the main process listen, before the device is unplugged?
    Await,
    /// A session runs over it.
    Serve,
    /// Nothing is left to do with it.
    Done,
}

/// Where a device in accessory mode starts. One that was there at startup is left over from an
/// earlier run.
pub fn accessory_start(at_startup: bool) -> (r: Accessory)
    ensures
        r == (if at_startup { Accessory::Release } else { Accessory::Await }),
{
    if at_startup { Accessory::Release } else { Accessory::Await }
}

/// Where a device in accessory mode is next, by the answer: whether it was released, whether the main
/// process listens. A session ends either way.
pub open spec fn accessory_after(s: Accessory, yes: bool) -> Accessory {
    match s {
        Accessory::Release => if yes { Accessory::Done } else { Accessory::Await },
        Accessory::Await => if yes { Accessory::Serve } else { Accessory::Done },
        Accessory::Serve => Accessory::Done,
        Accessory::Done => Accessory::Done,
    }
}

/// Where a device in accessory mode is next.
pub fn accessory_step(s: Accessory, yes: bool) -> (r: Accessory)
    ensures
        r == accessory_after(s, yes),
{
    match s {
        Accessory::Release => if yes { Accessory::Done } else { Accessory::Await },
        Accessory::Await => if yes { Accessory::Serve } else { Accessory::Done },
        Accessory::Serve => Accessory::Done,
        Accessory::Done => Accessory::Done,
    }
}

/// A device that was left over is served only where it could not be released, and no device is
/// served before the main process listens.
pub proof fn a_leftover_is_released_first(released: bool, listens: bool)
    ensures
        accessory_after(accessory_after(Accessory::Release, released), listens) == Accessory::Serve
            <==> !released && listens,
        forall|s: Accessory, yes: bool| #[trigger] accessory_after(s, yes) == Accessory::Serve
            ==> s == Accessory::Await && yes,
{
}

/// A phone that is parked is not switched, however it shows up.
pub proof fn a_parked_phone_is_not_switched(p: Phones, id: u64, serial: Seq<char>)
    requires
        p.parked.of(serial) is Some,
    ensures
        seen_as(p, id, serial, false, true) is Nothing || seen_as(p, id, serial, false, true) is Parked,
{
}

/// A device that is being switched or served is not taken up a second time.
pub proof fn a_busy_device_is_left_alone(p: Phones, id: u64, serial: Seq<char>, accessory: bool, candidate: bool)
    requires
        p.busy@.contains(id),
    ensures
        seen_as(p, id, serial, accessory, candidate) is Nothing,
{
}

/// One control transfer of the handshake.
pub struct VendorOut {
    pub request: u8,
    pub index: u16,
    pub data: Vec<u8>,
}

/// Reads the protocol version a phone answered with. A phone that speaks none is refused.
pub fn protocol(reply: &[u8]) -> (r: Result<u16, String>)
    ensures
        match r {
            Ok(v) => reply@.len() >= 2 && v == u16_le(reply@, 0) && v >= 1,
            Err(why) => if reply@.len() < 2 {
                why@ == "get protocol: short reply"@
            } else {
                u16_le(reply@, 0) < 1 && why@ == "protocol "@ + dec(u16_le(reply@, 0) as nat) + " not supported"@
            },
        },
        reply@.len() >= 2 && u16_le(reply@, 0) >= 1 ==> r is Ok,
{
    if reply.len() < 2 {
        return Err("get protocol: short reply".to_owned());
    }
    let version: u16 = get_le16(reply, 0);
    if version < 1 {
        let mut why = "protocol ".to_owned();
        put_dec(&mut why, version as u64);
        why.append(" not supported");
        return Err(why);
    }
    Ok(version)
}

/// The transfers that tell the phone about the host and then switch it: each text closed by a
/// zero, then the start.
pub fn switch_plan() -> (out: Vec<VendorOut>)
    ensures
        out@.len() == 7,
        forall|i: int| 0 <= i < 6 ==> {
            &&& (#[trigger] out@[i]).request == REQ_SEND_STRING
            &&& out@[i].index == i
            &&& out@[i].data@ == AOAP_STRINGS@[i].spec_bytes().push(0u8)
        },
        out@[6].request == REQ_START,
        out@[6].index == 0,
        out@[6].data@ == Seq::<u8>::empty(),
{
    let mut out: Vec<VendorOut> = Vec::new();
    let mut i: usize = 0;
    while i < 6
        invariant
            i <= 6,
            out@.len() == i,
            forall|j: int| 0 <= j < i ==> {
                &&& (#[trigger] out@[j]).request == REQ_SEND_STRING
                &&& out@[j].index == j
                &&& out@[j].data@ == AOAP_STRINGS@[j].spec_bytes().push(0u8)
            },
        decreases 6 - i,
    {
        let mut data = copy(AOAP_STRINGS[i].as_bytes());
        data.push(0u8);
        out.push(VendorOut { request: REQ_SEND_STRING, index: i as u16, data });
        i += 1;
    }
    out.push(VendorOut { request: REQ_START, index: 0, data: Vec::new() });
    out
}

/// Whether a reset is tried again: while the interface is claimed, as long as tries are left.
pub fn retry_reset(busy: bool, tries: &mut usize) -> (r: bool)
    ensures
        r == (busy && *old(tries) > 0),
        *final(tries) == (if r { (*old(tries) - 1) as usize } else { *old(tries) }),
{
    if busy && *tries > 0 {
        *tries = *tries - 1;
        true
    } else {
        false
    }
}

/// A device may be a phone by its vendor, its class and its interfaces: it carries no wireless controller,
/// and one interface that only phones have is enough, whatever else it carries. A device that says nothing
/// of its interfaces may be one.
pub proof fn what_may_be_a_phone(vendor: u16, class: u8, interfaces: Seq<u8>, more: u8)
    ensures
        interfaces.contains(0xe0) ==> !may_be_phone(vendor, class, interfaces),
        class != 0 && class != 0xff ==> !may_be_phone(vendor, class, interfaces),
        !PHONE_VENDORS@.contains(vendor) ==> !may_be_phone(vendor, class, interfaces),
        PHONE_VENDORS@.contains(vendor) && (class == 0 || class == 0xff) ==> may_be_phone(vendor, class, Seq::empty()),
        PHONE_VENDORS@.contains(vendor) && (class == 0 || class == 0xff) && !interfaces.contains(0xe0) && more != 0xe0
            && !NON_PHONE_INTERFACE_CLASSES@.contains(more) ==> may_be_phone(vendor, class, interfaces.push(more)),
        may_be_phone(vendor, class, interfaces) && interfaces.len() > 0 && more != 0xe0
            ==> may_be_phone(vendor, class, interfaces.push(more)),
        NON_PHONE_INTERFACE_CLASSES@.contains(more) ==> !may_be_phone(vendor, class, seq![more]),
{
    let all = interfaces.push(more);
    assert(all[all.len() - 1] == more);
    if all.contains(0xe0) && more != 0xe0 {
        let k = choose|k: int| 0 <= k < all.len() && all[k] == 0xe0;
        assert(interfaces[k] == 0xe0);
    }
    if may_be_phone(vendor, class, interfaces) && interfaces.len() > 0 {
        let i = choose|i: int| 0 <= i < interfaces.len() && !NON_PHONE_INTERFACE_CLASSES@.contains(#[trigger] interfaces[i]);
        assert(all[i] == interfaces[i]);
    }
    assert(!Seq::<u8>::empty().contains(0xe0));
    if NON_PHONE_INTERFACE_CLASSES@.contains(more) {
        assert(seq![more][0] == more);
    }
}

/// What becomes of a device that showed up and is neither busy nor failed: an accessory is served unless
/// an earlier run left it, a phone is switched unless it is parked, and anything else is left alone.
pub proof fn what_becomes_of_a_device(p: Phones, id: u64, serial: Seq<char>)
    requires
        !p.busy@.contains(id),
        !p.failed@.contains(id),
    ensures
        seen_as(p, id, serial, true, false) == (if p.leftover.of(serial) is None { Seen::Serve } else { Seen::Nothing }),
        seen_as(p, id, serial, false, true) == (if p.parked.of(serial) is None { Seen::Switch } else { Seen::Parked }),
        seen_as(p, id, serial, false, false) == Seen::Nothing,
{
}

/// A device whose probe failed is left alone like a busy one.
pub proof fn a_failed_device_is_left_alone(p: Phones, id: u64, serial: Seq<char>, accessory: bool, candidate: bool)
    requires
        p.failed@.contains(id),
    ensures
        seen_as(p, id, serial, accessory, candidate) is Nothing,
{
}

/// A phone the main process closed is parked until its cable is pulled: the disconnect of its own reset,
/// within three seconds, leaves it parked, a later one frees it. Other phones are not touched.
pub proof fn a_closed_phone_is_parked(before: Phones, serial: &str, other: Seq<char>, closed: bool, now: u64)
    requires
        before.wf(),
        serial@.len() > 0,
        other != serial@,
    ensures
        forall|p: &mut Phones, r: ()| #[trigger] call_ensures(Phones::session_ended, (p, serial, closed, now), r) && *p == before ==> {
            let after = *final(p);
            &&& after.resetting.of(serial@) == Some(now)
            &&& closed ==> after.parked.of(serial@) is Some
            &&& !closed ==> after.parked.of(serial@) == before.parked.of(serial@)
            &&& after.parked.of(other) == before.parked.of(other) && after.resetting.of(other) == before.resetting.of(other)
        },
{
}

/// A device that leaves is forgotten, and its session ends where it had one. Its phone stays parked only
/// where this is the disconnect of a reset that was at most three seconds ago.
pub proof fn a_pulled_cable_frees_a_phone(before: Phones, id: u64, now: u64, at: u64)
    requires
        before.wf(),
        before.serial_of@.dom().contains(id),
        before.parked.of(before.serial_of@[id]@) is Some,
    ensures
        forall|p: &mut Phones, r: Gone| #[trigger] call_ensures(Phones::gone, (p, id, now), r) && *p == before ==> {
            let after = *final(p);
            let serial = before.serial_of@[id]@;
            &&& before.resetting.of(serial) is None ==> r.unparked is Some && after.parked.of(serial) is None
            &&& before.resetting.of(serial) == Some(at) && now > at + 3000 ==> r.unparked is Some
                && after.parked.of(serial) is None
            &&& before.resetting.of(serial) == Some(at) && now <= at + 3000 ==> r.unparked is None
                && after.parked.of(serial) is Some
            &&& after.resetting.of(serial) is None
            &&& r.unparked is Some ==> r.unparked->0@ == serial
            &&& r.cancel == before.serving@.contains(id)
            &&& !after.busy@.contains(id) && !after.failed@.contains(id) && !after.serial_of@.dom().contains(id)
        },
{
}

/// The handshake that switches a phone: six texts by their places, each closed by a zero, and the start.
pub proof fn how_a_phone_is_switched(out: Vec<VendorOut>, i: int)
    requires
        call_ensures(switch_plan, (), out),
        0 <= i < 6,
    ensures
        out@.len() == 7,
        out@[i].request == 52 && out@[i].index == i && out@[i].data@.last() == 0,
        out@[i].data@.drop_last() == AOAP_STRINGS@[i].spec_bytes(),
        out@[6].request == 53 && out@[6].data@.len() == 0,
{
    assert(out@[i].data@.drop_last() =~= AOAP_STRINGS@[i].spec_bytes());
}

/// A phone that answers with a protocol is taken with the one it names, two bytes, least significant first.
pub proof fn a_protocol_is_read(reply: &[u8], v: u16, more: Seq<u8>, r: Result<u16, String>)
    requires
        call_ensures(protocol, (reply,), r),
        reply@ == crate::bytes::le16(v) + more,
    ensures
        v > 0 ==> r == Ok::<u16, String>(v),
        v == 0 ==> r is Err,
{
    assert(reply@.subrange(0, 2) =~= crate::bytes::le16(v));
    crate::bytes::integers_read_back(reply@, 0, v, 0);
}

} // verus!
