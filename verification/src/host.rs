//! The video and audio host: the planes and streams the main process asks for, and which feeder
//! a screen listens to. The pipelines, the sockets and the keyframe filters are outside: a message
//! is answered with what to do there, and what came of it is reported back.

use vstd::prelude::*;
use std::collections::{HashMap, HashSet};
use vstd::utf8::{decode_utf8, encode_utf8_decode_utf8, valid_utf8};

use crate::bytes::{append, copy, copy_range, get_le32, le16, le32, put_le16, put_le32, u32_le};
use crate::host_messages::{AudioConfig, Cluster, Reply, ReplySpec, TapConfig, UplinkConfig};
use crate::host_messages::{create_of, feeder, feeder_of, get_word, is_audio, is_fed, is_tap, is_uplink, mic_complete};
use crate::host_messages::{read_audio, read_create, read_tap, read_uplink, says_yes, tap_complete, volume_of, word, yes};
use crate::host_messages::{AUDIO_FIXED, LISTEN_FIXED, OP_AUDIO_ACTIVE, OP_AUDIO_DATA, OP_AUDIO_OPEN, OP_AUDIO_STOP};
use crate::host_messages::{OP_AUDIO_VOLUME, OP_CREATE, OP_DATA, OP_FEED_OPEN, OP_GAMMA, OP_LISTEN, OP_MIC_OPEN};
use crate::host_messages::{OP_MIC_STOP, OP_SET_ACTIVE, OP_STOP, OP_TAP_OPEN, OP_TAP_STOP, OP_TEARDOWN, OP_VISUALIZER};
use crate::host_messages::{REPLY_AUDIO_PORTS, REPLY_AUDIO_STARTED, REPLY_CONFIG, REPLY_FEED, REPLY_PORT};
use crate::host_messages::{REPLY_STARTED, REPLY_VISUALIZER};
use crate::text::{dec, hex, put_dec, put_number, utf8, views};

verus! {

/// A receiver of a phone's screen.
pub struct Receiver {
    pub id: u32,
    /// The plane its frames are for.
    pub plane_id: u32,
    /// Serves every cluster plane.
    pub is_cluster: bool,
    /// The codec byte, then the configuration atom.
    pub config: Vec<u8>,
    /// Whether its frames pass.
    pub active: bool,
}

/// What is known of a receiver.
pub struct Recv {
    pub id: u32,
    pub plane_id: u32,
    pub is_cluster: bool,
    pub config: Seq<u8>,
    pub active: bool,
}

impl View for Receiver {
    type V = Recv;

    open spec fn view(&self) -> Recv {
        Recv {
            id: self.id,
            plane_id: self.plane_id,
            is_cluster: self.is_cluster,
            config: self.config@,
            active: self.active,
        }
    }
}

/// What is known of each receiver in a list.
pub open spec fn recvs(list: Seq<Receiver>) -> Seq<Recv> {
    Seq::new(list.len(), |i: int| list[i]@)
}

/// Keeps the planes and the receivers, and acts on the messages the main process sends.
pub struct Host {
    pub cluster: Cluster,
    pub planes: HashSet<u32>,
    pub receivers: Vec<Receiver>,
    /// The audio streams, and whether each reaches its sink.
    pub audio: HashMap<u32, bool>,
    pub uplinks: HashSet<u32>,
    pub taps: HashSet<u32>,
    /// The fed video streams that started, and whether a keyframe filter can read each.
    pub fed: HashMap<u32, bool>,
    /// Whether a fed stream is the feeder of its plane, kept for streams that start later.
    pub wanted: HashMap<u32, bool>,
    pub helper_feed: bool,
    /// A window wants the pre-fader tap.
    pub visualizer_enabled: bool,
}

/// What a host knows.
pub struct HostSpec {
    pub cluster: Cluster,
    pub planes: Set<u32>,
    pub receivers: Seq<Recv>,
    pub audio: Map<u32, bool>,
    pub uplinks: Set<u32>,
    pub taps: Set<u32>,
    pub fed: Map<u32, bool>,
    pub wanted: Map<u32, bool>,
    pub helper_feed: bool,
    pub visualizer_enabled: bool,
}

impl View for Host {
    type V = HostSpec;

    open spec fn view(&self) -> HostSpec {
        HostSpec {
            cluster: self.cluster,
            planes: self.planes@,
            receivers: recvs(self.receivers@),
            audio: self.audio@,
            uplinks: self.uplinks@,
            taps: self.taps@,
            fed: self.fed@,
            wanted: self.wanted@,
            helper_feed: self.helper_feed,
            visualizer_enabled: self.visualizer_enabled,
        }
    }
}

/// Where a receiver stands in a list, or the length where it is not in it.
pub open spec fn place(list: Seq<Recv>, id: u32) -> nat
    decreases list.len(),
{
    if list.len() == 0 || list[0].id == id { 0 } else { 1 + place(list.skip(1), id) }
}

proof fn place_bounds(list: Seq<Recv>, id: u32)
    ensures
        place(list, id) <= list.len(),
        place(list, id) < list.len() ==> list[place(list, id) as int].id == id,
        forall|j: int| 0 <= j < place(list, id) ==> (#[trigger] list[j]).id != id,
    decreases list.len(),
{
    if list.len() > 0 && list[0].id != id {
        place_bounds(list.skip(1), id);
        assert forall|j: int| 0 <= j < place(list, id) implies (#[trigger] list[j]).id != id by {
            if j > 0 {
                assert(list.skip(1)[j - 1] == list[j]);
            }
        }
    }
}

proof fn place_is(list: Seq<Recv>, id: u32, k: int)
    requires
        0 <= k <= list.len(),
        forall|j: int| 0 <= j < k ==> (#[trigger] list[j]).id != id,
        k < list.len() ==> list[k].id == id,
    ensures
        place(list, id) == k,
{
    place_bounds(list, id);
    let p = place(list, id) as int;
    if p < k {
        assert(list[p].id != id);
    }
    if p > k {
        assert(list[k].id != id);
    }
}

/// Whether a fed stream is the feeder of its plane. One that nothing was said about is.
pub open spec fn fed_active(v: HostSpec, id: u32) -> bool {
    if v.wanted.dom().contains(id) { v.wanted[id] } else { true }
}

impl HostSpec {
    /// One screen has one feeder: receivers have ids of their own, at most one of a plane is
    /// active, and where one is, the fed stream of that plane is held.
    pub open spec fn wf(self) -> bool {
        &&& forall|i: int, j: int| 0 <= i < j < self.receivers.len() ==>
            (#[trigger] self.receivers[i]).id != (#[trigger] self.receivers[j]).id
        &&& forall|i: int, j: int| 0 <= i < j < self.receivers.len()
            && (#[trigger] self.receivers[i]).plane_id == (#[trigger] self.receivers[j]).plane_id
            ==> !(self.receivers[i].active && self.receivers[j].active)
        &&& forall|i: int| 0 <= i < self.receivers.len() && (#[trigger] self.receivers[i]).active
            ==> !fed_active(self, self.receivers[i].plane_id)
    }
}

/// The receivers of a plane held, but for one.
pub open spec fn held(list: Seq<Recv>, plane_id: u32, except: Option<u32>) -> Seq<Recv> {
    Seq::new(
        list.len(),
        |i: int| if list[i].plane_id == plane_id && except != Some(list[i].id) {
            Recv { active: false, ..list[i] }
        } else {
            list[i]
        },
    )
}

/// What is to be done at the filters when a feeder is chosen.
pub struct Activation {
    /// Every receiver of this plane but the one that is chosen is held.
    pub hold: Option<u32>,
    /// A fed stream that is held or let through, and whether its filter waits for a keyframe again.
    pub fed: Option<(u32, bool, bool)>,
    /// A receiver that is held or let through; one that is let through waits for a keyframe.
    pub receiver: Option<(u32, bool)>,
    pub reply: Option<Reply>,
}

/// What is to be done outside for a message.
pub enum Request {
    Nothing,
    /// Build a plane. One of the same id is gone.
    CreatePlane { id: u32, codec: String, data: Vec<u8> },
    Push { id: u32, data: Vec<u8> },
    DropPlane(u32),
    /// The bits of five doubles: gamma, contrast and the three gains.
    Gamma { id: u32, values: [u64; 5] },
    Listen { id: u32, plane_id: u32, cluster: bool, key: Vec<u8> },
    DropReceiver(u32),
    Activate(Activation),
    /// Build a pipeline, and bind ports unless the main process feeds it.
    OpenSpeaker { id: u32, audio: AudioConfig, fed: bool },
    /// The bits of a double, and the ramp in milliseconds.
    Volume { id: u32, level: u64, ms: u64 },
    DropSpeaker(u32),
    OpenUplink { id: u32, uplink: UplinkConfig },
    DropUplink(u32),
    OpenTap { id: u32, tap: TapConfig },
    DropTap(u32),
    Samples { id: u32, data: Vec<u8> },
    Visualizer(bool),
    /// Bind the socket a helper streams media into. The one before is gone.
    OpenFeed { id: u32, path: String },
}

/// What choosing a feeder does at the filters.
pub open spec fn activates(v: HostSpec, id: u32, active: bool, a: Activation) -> bool {
    let at = place(v.receivers, id) as int;
    if at >= v.receivers.len() {
        &&& a.hold == (if active { Some(id) } else { None })
        &&& a.fed == (if v.fed.dom().contains(id) && v.fed[id] {
            Some((id, active, active && !fed_active(v, id)))
        } else {
            None
        })
        &&& a.receiver is None
        &&& a.reply is None
    } else if !active {
        &&& a.hold is None
        &&& a.fed is None
        &&& a.receiver == Some((id, false))
        &&& a.reply is None
    } else {
        let r = v.receivers[at];
        &&& a.hold == Some(r.plane_id)
        &&& a.fed == (if v.fed.dom().contains(r.plane_id) && v.fed[r.plane_id] {
            Some((r.plane_id, false, false))
        } else {
            None
        })
        &&& a.receiver == Some((id, true))
        &&& match a.reply {
            Some(reply) => r.config.len() > 0
                && reply@ == (ReplySpec { op: REPLY_CONFIG, id: r.plane_id, rest: r.config }),
            None => r.config.len() == 0,
        }
    }
}

/// What the host knows after a feeder was chosen.
pub open spec fn activated(v: HostSpec, id: u32, active: bool) -> HostSpec {
    let at = place(v.receivers, id) as int;
    if at >= v.receivers.len() {
        HostSpec {
            receivers: if active { held(v.receivers, id, None) } else { v.receivers },
            wanted: v.wanted.insert(id, active),
            ..v
        }
    } else if !active {
        HostSpec { receivers: v.receivers.update(at, Recv { active: false, ..v.receivers[at] }), ..v }
    } else {
        let r = v.receivers[at];
        HostSpec {
            receivers: held(v.receivers, r.plane_id, Some(id)).update(at, Recv { active: true, ..r }),
            wanted: v.wanted.insert(r.plane_id, false),
            ..v
        }
    }
}

/// What a message asks of the outside.
pub open spec fn requested(v: HostSpec, op: u8, id: u32, rest: Seq<u8>, r: Request) -> bool {
    if op == OP_CREATE {
        match create_of(rest) {
            Some((codec, data)) => r matches Request::CreatePlane { id: i, codec: c, data: d }
                && i == id && c@ == codec && d@ == data,
            None => r is Nothing,
        }
    } else if op == OP_DATA {
        if v.planes.contains(id) {
            r matches Request::Push { id: i, data } && i == id && data@ == rest
        } else {
            r is Nothing
        }
    } else if op == OP_STOP {
        r == Request::DropPlane(id)
    } else if op == OP_GAMMA {
        if rest.len() >= 40 && v.planes.contains(id) {
            r matches Request::Gamma { id: i, values } && i == id
                && values@ == seq![word(rest, 0), word(rest, 8), word(rest, 16), word(rest, 24), word(rest, 32)]
        } else {
            r is Nothing
        }
    } else if op == OP_LISTEN {
        if rest.len() >= LISTEN_FIXED {
            r matches Request::Listen { id: i, plane_id, cluster, key } && i == id && plane_id == u32_le(rest, 0)
                && cluster == (rest[4] % 2 == 1) && key@ == rest.subrange(5, 37)
        } else {
            r is Nothing
        }
    } else if op == OP_TEARDOWN {
        r == Request::DropReceiver(id)
    } else if op == OP_SET_ACTIVE {
        r matches Request::Activate(a) && activates(v, id, yes(rest), a)
    } else if op == OP_AUDIO_OPEN {
        if rest.len() >= AUDIO_FIXED {
            r matches Request::OpenSpeaker { id: i, audio, fed } && i == id && is_audio(audio, rest)
                && fed == is_fed(rest)
        } else {
            r is Nothing
        }
    } else if op == OP_AUDIO_VOLUME {
        match volume_of(rest) {
            Some((level, ms)) => if v.audio.dom().contains(id) {
                r == (Request::Volume { id, level, ms })
            } else {
                r is Nothing
            },
            None => r is Nothing,
        }
    } else if op == OP_AUDIO_STOP {
        r == Request::DropSpeaker(id)
    } else if op == OP_MIC_OPEN {
        if mic_complete(rest) {
            r matches Request::OpenUplink { id: i, uplink } && i == id && is_uplink(uplink, rest)
        } else {
            r is Nothing
        }
    } else if op == OP_MIC_STOP {
        r == Request::DropUplink(id)
    } else if op == OP_TAP_OPEN {
        if tap_complete(rest) {
            r matches Request::OpenTap { id: i, tap } && i == id && is_tap(tap, rest)
        } else {
            r is Nothing
        }
    } else if op == OP_TAP_STOP {
        r == Request::DropTap(id)
    } else if op == OP_AUDIO_DATA {
        if v.audio.dom().contains(id) && v.audio[id] {
            r matches Request::Samples { id: i, data } && i == id && data@ == rest
        } else {
            r is Nothing
        }
    } else if op == OP_VISUALIZER {
        r == Request::Visualizer(yes(rest))
    } else if op == OP_FEED_OPEN {
        if valid_utf8(rest) {
            r matches Request::OpenFeed { id: i, path } && i == id && path@ == decode_utf8(rest)
        } else {
            r is Nothing
        }
    } else {
        r is Nothing
    }
}

/// What the host knows after a message.
pub open spec fn after(v: HostSpec, op: u8, id: u32, rest: Seq<u8>) -> HostSpec {
    if op == OP_CREATE && create_of(rest) is Some {
        HostSpec { planes: v.planes.remove(id), ..v }
    } else if op == OP_STOP {
        HostSpec { planes: v.planes.remove(id), ..v }
    } else if op == OP_TEARDOWN {
        HostSpec { receivers: dropped(v.receivers, id), ..v }
    } else if op == OP_SET_ACTIVE {
        activated(v, id, yes(rest))
    } else if op == OP_AUDIO_STOP {
        HostSpec { audio: v.audio.remove(id), ..v }
    } else if op == OP_MIC_STOP {
        HostSpec { uplinks: v.uplinks.remove(id), ..v }
    } else if op == OP_TAP_STOP {
        HostSpec { taps: v.taps.remove(id), ..v }
    } else if op == OP_AUDIO_ACTIVE && v.audio.dom().contains(id) {
        HostSpec { audio: v.audio.insert(id, yes(rest)), ..v }
    } else if op == OP_VISUALIZER {
        HostSpec { visualizer_enabled: yes(rest), ..v }
    } else if op == OP_FEED_OPEN && valid_utf8(rest) {
        HostSpec { helper_feed: false, ..v }
    } else {
        v
    }
}

/// The receivers without one.
pub open spec fn dropped(list: Seq<Recv>, id: u32) -> Seq<Recv> {
    let at = place(list, id) as int;
    if at < list.len() { list.remove(at) } else { list }
}

impl Host {
    /// Nothing opened, nothing asked for.
    pub fn new(cluster: Cluster) -> (r: Self)
        ensures
            r@.wf(),
            r@ == (HostSpec {
                cluster,
                planes: Set::empty(),
                receivers: Seq::empty(),
                audio: Map::empty(),
                uplinks: Set::empty(),
                taps: Set::empty(),
                fed: Map::empty(),
                wanted: Map::empty(),
                helper_feed: false,
                visualizer_enabled: false,
            }),
    {
        let r = Host {
            cluster,
            planes: HashSet::new(),
            receivers: Vec::new(),
            audio: HashMap::new(),
            uplinks: HashSet::new(),
            taps: HashSet::new(),
            fed: HashMap::new(),
            wanted: HashMap::new(),
            helper_feed: false,
            visualizer_enabled: false,
        };
        assert(r@.receivers =~= Seq::<Recv>::empty());
        r
    }

    /// Where a receiver stands.
    fn find(&self, id: u32) -> (at: usize)
        ensures
            at == place(self@.receivers, id),
            at <= self.receivers@.len(),
    {
        let ghost list = recvs(self.receivers@);
        let mut at: usize = 0;
        while at < self.receivers.len() && self.receivers[at].id != id
            invariant
                at <= self.receivers@.len(),
                list == recvs(self.receivers@),
                forall|j: int| 0 <= j < at ==> (#[trigger] list[j]).id != id,
            decreases self.receivers@.len() - at,
        {
            assert(list[at as int].id == self.receivers@[at as int].id);
            at += 1;
        }
        proof {
            if at < self.receivers@.len() {
                assert(list[at as int].id == self.receivers@[at as int].id);
            }
            place_is(list, id, at as int);
        }
        at
    }

    /// Holds every receiver of a plane, but for one.
    fn hold_receivers_of(&mut self, plane_id: u32, except: Option<u32>)
        ensures
            final(self)@ == (HostSpec { receivers: held(old(self)@.receivers, plane_id, except), ..old(self)@ }),
    {
        let ghost was = self@;
        let mut i: usize = 0;
        while i < self.receivers.len()
            invariant
                i <= self.receivers@.len(),
                self.receivers@.len() == was.receivers.len(),
                self@ == (HostSpec { receivers: self@.receivers, ..was }),
                forall|j: int| 0 <= j < i ==> #[trigger] self@.receivers[j] == held(was.receivers, plane_id, except)[j],
                forall|j: int| i <= j < was.receivers.len() ==> #[trigger] self@.receivers[j] == was.receivers[j],
            decreases self.receivers@.len() - i,
        {
            let ghost before = self@.receivers;
            let ghost raw = self.receivers@;
            assert(before[i as int] == raw[i as int]@);
            let id: u32 = self.receivers[i].id;
            let mine = match except {
                Some(e) => e == id,
                None => false,
            };
            if self.receivers[i].plane_id == plane_id && !mine {
                self.receivers[i].active = false;
                assert(self.receivers@ =~= raw.update(i as int, Receiver { active: false, ..raw[i as int] }));
                assert(self@.receivers =~= before.update(i as int, Recv { active: false, ..before[i as int] }));
            }
            i += 1;
        }
        assert(self@.receivers =~= held(was.receivers, plane_id, except));
    }

    /// Chooses the feeder of a plane. The id names a receiver, or a fed stream by its plane id.
    /// Making one active makes every other feeder of the same plane passive, so one screen has
    /// one feeder. `[1B active]`
    pub fn set_active_feeder(&mut self, id: u32, rest: &[u8]) -> (a: Activation)
        requires
            old(self)@.wf(),
        ensures
            activates(old(self)@, id, yes(rest@), a),
            final(self)@ == activated(old(self)@, id, yes(rest@)),
            final(self)@.wf(),
    {
        broadcast use vstd::std_specs::hash::group_hash_axioms;
        let active = says_yes(rest);
        let ghost was = self@;
        let at: usize = self.find(id);
        proof {
            place_bounds(was.receivers, id);
        }
        if at >= self.receivers.len() {
            if active {
                self.hold_receivers_of(id, None);
            }
            let fed = self.set_feed_active(id, active);
            proof {
                keeps_one_feeder(was, id, active);
            }
            return Activation {
                hold: if active { Some(id) } else { None },
                fed,
                receiver: None,
                reply: None,
            };
        }
        assert(was.receivers[at as int] == self.receivers@[at as int]@);
        let plane_id: u32 = self.receivers[at].plane_id;
        if !active {
            let ghost raw = self.receivers@;
            self.receivers[at].active = false;
            assert(self.receivers@ =~= raw.update(at as int, Receiver { active: false, ..raw[at as int] }));
            assert(self@.receivers =~= was.receivers.update(at as int, Recv { active: false, ..was.receivers[at as int] }));
            proof {
                keeps_one_feeder(was, id, active);
            }
            return Activation { hold: None, fed: None, receiver: Some((id, false)), reply: None };
        }
        self.hold_receivers_of(plane_id, Some(id));
        let fed = self.set_feed_active(plane_id, false);
        let ghost mid = self@;
        let ghost raw = self.receivers@;
        assert(mid.receivers == recvs(raw));
        assert(raw.len() == mid.receivers.len());
        assert(mid.receivers[at as int] == was.receivers[at as int]);
        assert(mid.receivers[at as int] == raw[at as int]@);
        self.receivers[at].active = true;
        assert(self.receivers@ =~= raw.update(at as int, Receiver { active: true, ..raw[at as int] }));
        assert(self@.receivers =~= mid.receivers.update(at as int, Recv { active: true, ..was.receivers[at as int] }));
        let reply = if self.receivers[at].config.len() > 0 {
            Some(Reply { op: REPLY_CONFIG, id: plane_id, rest: copy(&self.receivers[at].config) })
        } else {
            None
        };
        proof {
            keeps_one_feeder(was, id, active);
        }
        Activation { hold: Some(plane_id), fed, receiver: Some((id, true)), reply }
    }

    /// A stream that has not started yet picks the answer up when it does.
    fn set_feed_active(&mut self, id: u32, active: bool) -> (r: Option<(u32, bool, bool)>)
        ensures
            final(self)@ == (HostSpec { wanted: old(self)@.wanted.insert(id, active), ..old(self)@ }),
            r == (if old(self)@.fed.dom().contains(id) && old(self)@.fed[id] {
                Some((id, active, active && !fed_active(old(self)@, id)))
            } else {
                None
            }),
    {
        broadcast use vstd::std_specs::hash::group_hash_axioms;
        let ghost was = self@;
        let was_active = match self.wanted.get(&id) {
            Some(w) => *w,
            None => true,
        };
        let filtered = match self.fed.get(&id) {
            Some(g) => *g,
            None => false,
        };
        self.wanted.insert(id, active);
        assert(self@.receivers =~= was.receivers);
        if filtered { Some((id, active, active && !was_active)) } else { None }
    }
}

/// Choosing a feeder keeps one feeder to a screen.
proof fn keeps_one_feeder(v: HostSpec, id: u32, active: bool)
    requires
        v.wf(),
    ensures
        activated(v, id, active).wf(),
{
    let n = activated(v, id, active);
    place_bounds(v.receivers, id);
    let at = place(v.receivers, id) as int;
    assert(n.receivers.len() == v.receivers.len());
    assert forall|i: int| 0 <= i < n.receivers.len() implies (#[trigger] n.receivers[i]).id == v.receivers[i].id
        && n.receivers[i].plane_id == v.receivers[i].plane_id by {}
    assert forall|i: int, j: int| 0 <= i < j < n.receivers.len() implies
        (#[trigger] n.receivers[i]).id != (#[trigger] n.receivers[j]).id by {
        assert(v.receivers[i].id != v.receivers[j].id);
    }
    assert forall|i: int, j: int| 0 <= i < j < n.receivers.len()
        && (#[trigger] n.receivers[i]).plane_id == (#[trigger] n.receivers[j]).plane_id
        implies !(n.receivers[i].active && n.receivers[j].active) by {
        assert(v.receivers[i].plane_id == v.receivers[j].plane_id);
        assert(v.receivers[i].id != v.receivers[j].id);
    }
    assert forall|i: int| 0 <= i < n.receivers.len() && (#[trigger] n.receivers[i]).active
        implies !fed_active(n, n.receivers[i].plane_id) by {
        assert(v.receivers[i].plane_id == n.receivers[i].plane_id);
        if at >= v.receivers.len() {
            assert(v.receivers[i].active);
        } else if active && i == at {
        } else {
            assert(v.receivers[i].active);
        }
    }
}

/// Dropping a receiver keeps one feeder to a screen.
proof fn dropping_keeps_one_feeder(v: HostSpec, id: u32)
    requires
        v.wf(),
    ensures
        (HostSpec { receivers: dropped(v.receivers, id), ..v }).wf(),
{
    let n = HostSpec { receivers: dropped(v.receivers, id), ..v };
    place_bounds(v.receivers, id);
    let at = place(v.receivers, id) as int;
    if at < v.receivers.len() {
        assert forall|i: int, j: int| 0 <= i < j < n.receivers.len() implies
            (#[trigger] n.receivers[i]).id != (#[trigger] n.receivers[j]).id
            && (n.receivers[i].plane_id == n.receivers[j].plane_id ==> !(n.receivers[i].active && n.receivers[j].active)) by {
            let a = if i < at { i } else { i + 1 };
            let b = if j < at { j } else { j + 1 };
            assert(n.receivers[i] == v.receivers[a]);
            assert(n.receivers[j] == v.receivers[b]);
        }
        assert forall|i: int| 0 <= i < n.receivers.len() && (#[trigger] n.receivers[i]).active
            implies !fed_active(n, n.receivers[i].plane_id) by {
            let a = if i < at { i } else { i + 1 };
            assert(n.receivers[i] == v.receivers[a]);
        }
    }
}

/// A new receiver is passive, so it keeps one feeder to a screen.
proof fn adding_keeps_one_feeder(v: HostSpec, r: Recv)
    requires
        v.wf(),
        !r.active,
        place(v.receivers, r.id) == v.receivers.len(),
    ensures
        (HostSpec { receivers: v.receivers.push(r), ..v }).wf(),
{
    let n = HostSpec { receivers: v.receivers.push(r), ..v };
    place_bounds(v.receivers, r.id);
    assert forall|i: int, j: int| 0 <= i < j < n.receivers.len() implies
        (#[trigger] n.receivers[i]).id != (#[trigger] n.receivers[j]).id
        && (n.receivers[i].plane_id == n.receivers[j].plane_id ==> !(n.receivers[i].active && n.receivers[j].active)) by {
        assert(n.receivers[i] == v.receivers[i]);
        if j < v.receivers.len() {
            assert(n.receivers[j] == v.receivers[j]);
        }
    }
    assert forall|i: int| 0 <= i < n.receivers.len() && (#[trigger] n.receivers[i]).active
        implies !fed_active(n, n.receivers[i].plane_id) by {
        assert(n.receivers[i] == v.receivers[i]);
    }
}

impl Host {
    /// Takes a receiver off the list.
    fn drop_receiver(&mut self, id: u32)
        ensures
            final(self)@ == (HostSpec { receivers: dropped(old(self)@.receivers, id), ..old(self)@ }),
            old(self)@.wf() ==> final(self)@.wf() && place(final(self)@.receivers, id) == final(self)@.receivers.len(),
    {
        let ghost was = self@;
        let at: usize = self.find(id);
        proof {
            place_bounds(was.receivers, id);
        }
        if at < self.receivers.len() {
            let ghost raw = self.receivers@;
            let _ = self.receivers.remove(at);
            assert(self@.receivers =~= was.receivers.remove(at as int));
        }
        proof {
            if was.wf() {
                dropping_keeps_one_feeder(was, id);
                let list = self@.receivers;
                assert forall|j: int| 0 <= j < list.len() implies (#[trigger] list[j]).id != id by {
                    if at < was.receivers.len() {
                        let a = if j < at { j } else { j + 1 };
                        assert(list[j] == was.receivers[a]);
                        if a < at {
                            assert(was.receivers[a].id != was.receivers[at as int].id);
                        } else {
                            assert(was.receivers[at as int].id != was.receivers[a].id);
                        }
                    }
                }
                place_is(list, id, list.len() as int);
            }
        }
    }

    /// Acts on one message of the main process, and says what is to be done outside.
    pub fn dispatch(&mut self, op: u8, id: u32, rest: &[u8]) -> (r: Request)
        requires
            old(self)@.wf(),
        ensures
            requested(old(self)@, op, id, rest@, r),
            final(self)@ == after(old(self)@, op, id, rest@),
            final(self)@.wf(),
    {
        broadcast use vstd::std_specs::hash::group_hash_axioms;
        let ghost was = self@;
        match op {
            OP_CREATE => match read_create(rest) {
                Some((codec, data)) => {
                    self.planes.remove(&id);
                    assert(self@.receivers =~= was.receivers);
                    Request::CreatePlane { id, codec, data }
                },
                None => Request::Nothing,
            },
            OP_DATA => if self.planes.contains(&id) {
                Request::Push { id, data: copy(rest) }
            } else {
                Request::Nothing
            },
            OP_STOP => {
                self.planes.remove(&id);
                Request::DropPlane(id)
            },
            OP_GAMMA => self.gamma(id, rest),
            OP_LISTEN => {
                if rest.len() < LISTEN_FIXED {
                    return Request::Nothing;
                }
                Request::Listen {
                    id,
                    plane_id: get_le32(rest, 0),
                    cluster: rest[4] % 2 == 1,
                    key: copy_range(rest, 5, 37),
                }
            },
            OP_TEARDOWN => {
                self.drop_receiver(id);
                Request::DropReceiver(id)
            },
            OP_SET_ACTIVE => {
                let a = self.set_active_feeder(id, rest);
                Request::Activate(a)
            },
            OP_AUDIO_OPEN => match read_audio(rest) {
                Some((audio, fed)) => Request::OpenSpeaker { id, audio, fed },
                None => Request::Nothing,
            },
            OP_AUDIO_VOLUME => self.volume(id, rest),
            OP_AUDIO_STOP => {
                self.audio.remove(&id);
                Request::DropSpeaker(id)
            },
            OP_MIC_OPEN => match read_uplink(rest) {
                Some(uplink) => Request::OpenUplink { id, uplink },
                None => Request::Nothing,
            },
            OP_MIC_STOP => {
                self.uplinks.remove(&id);
                Request::DropUplink(id)
            },
            OP_TAP_OPEN => match read_tap(rest) {
                Some(tap) => Request::OpenTap { id, tap },
                None => Request::Nothing,
            },
            OP_TAP_STOP => {
                self.taps.remove(&id);
                Request::DropTap(id)
            },
            OP_AUDIO_DATA => if self.sounds(id) {
                Request::Samples { id, data: copy(rest) }
            } else {
                Request::Nothing
            },
            OP_AUDIO_ACTIVE => {
                if self.audio.contains_key(&id) {
                    self.audio.insert(id, says_yes(rest));
                }
                Request::Nothing
            },
            OP_VISUALIZER => {
                let on = says_yes(rest);
                self.visualizer_enabled = on;
                Request::Visualizer(on)
            },
            OP_FEED_OPEN => match utf8(rest) {
                Some(path) => {
                    proof {
                        encode_utf8_decode_utf8(path@);
                    }
                    self.helper_feed = false;
                    Request::OpenFeed { id, path }
                },
                None => Request::Nothing,
            },
            _ => Request::Nothing,
        }
    }

    /// Five doubles for a plane: gamma, contrast and the three gains.
    fn gamma(&self, id: u32, rest: &[u8]) -> (r: Request)
        ensures
            requested(self@, OP_GAMMA, id, rest@, r),
    {
        broadcast use vstd::std_specs::hash::group_hash_axioms;
        if rest.len() < 40 || !self.planes.contains(&id) {
            return Request::Nothing;
        }
        let values = [get_word(rest, 0), get_word(rest, 8), get_word(rest, 16), get_word(rest, 24), get_word(rest, 32)];
        assert(values@ =~= seq![word(rest@, 0), word(rest@, 8), word(rest@, 16), word(rest@, 24), word(rest@, 32)]);
        Request::Gamma { id, values }
    }

    /// A level for a stream, and the ramp in milliseconds, none for at once.
    fn volume(&self, id: u32, rest: &[u8]) -> (r: Request)
        ensures
            requested(self@, OP_AUDIO_VOLUME, id, rest@, r),
    {
        broadcast use vstd::std_specs::hash::group_hash_axioms;
        if rest.len() < 8 || !self.audio.contains_key(&id) {
            return Request::Nothing;
        }
        let ms: u64 = if rest.len() >= 12 { get_le32(rest, 8) as u64 } else { 0 };
        Request::Volume { id, level: get_word(rest, 0), ms }
    }

    /// Whether what a stream is fed reaches its sink. One phone at a time does: a held session
    /// keeps its ports and its pipeline, but its packets stop here.
    pub fn sounds(&self, id: u32) -> (r: bool)
        ensures
            r == (self@.audio.dom().contains(id) && self@.audio[id]),
    {
        broadcast use vstd::std_specs::hash::group_hash_axioms;
        match self.audio.get(&id) {
            Some(active) => *active,
            None => false,
        }
    }
}

/// The cluster planes that are there, from an id on.
pub open spec fn cluster_planes(planes: Set<u32>, from: int, max: int) -> Seq<u32>
    decreases max - from + 1,
{
    if from > max {
        Seq::empty()
    } else if planes.contains(from as u32) {
        seq![from as u32] + cluster_planes(planes, from + 1, max)
    } else {
        cluster_planes(planes, from + 1, max)
    }
}

/// The planes a feeder serves: every cluster plane, or the one it is for, as far as they are
/// there.
pub open spec fn targets(v: HostSpec, cluster: bool, plane_id: u32) -> Seq<u32> {
    if cluster {
        cluster_planes(v.planes, v.cluster.plane_min as int, v.cluster.plane_max as int)
    } else if v.planes.contains(plane_id) {
        seq![plane_id]
    } else {
        Seq::empty()
    }
}

/// What primes a plane that was created while its feeder runs.
pub struct Prime {
    /// The active receiver of its feeder, whose cached frames are pushed first.
    pub receiver: Option<u32>,
    /// The fed stream of its feeder, whose cached frames are pushed next.
    pub fed: Option<u32>,
}

/// The active receiver of a plane, or the length where it has none.
pub open spec fn active_at(list: Seq<Recv>, plane_id: u32) -> nat
    decreases list.len(),
{
    if list.len() == 0 || (list[0].active && list[0].plane_id == plane_id) {
        0
    } else {
        1 + active_at(list.skip(1), plane_id)
    }
}

/// What a record of the helper's feed is.
#[derive(Clone, Copy, PartialEq, Eq, Structural)]
pub enum RecordKind {
    VideoStart,
    Video,
    Audio,
    Other,
}

/// What is to be done outside for a record of the helper's feed.
pub enum FeedStep {
    Nothing,
    /// A new filter for the stream, with the codec byte and whether it lets through.
    Filtered { codec: u8, active: bool },
    /// The stream has no filter: its codec cannot be read.
    Unfiltered,
    /// A frame, for these planes. A filtered stream's filter decides whether it passes.
    Frame { filtered: bool, planes: Vec<u32> },
    /// Samples for the stream's pipeline.
    Samples,
}

/// Whether a filter can read the codec a stream starts with.
pub open spec fn readable(payload: Seq<u8>) -> bool {
    payload.len() > 0 && payload[0] <= 1
}

/// What a record of the helper's feed asks of the outside.
pub open spec fn fed_step(v: HostSpec, kind: RecordKind, id: u32, payload: Seq<u8>, r: FeedStep) -> bool {
    match kind {
        RecordKind::VideoStart => if readable(payload) {
            r == (FeedStep::Filtered { codec: payload[0], active: fed_active(v, id) })
        } else {
            r is Unfiltered
        },
        RecordKind::Video => r matches FeedStep::Frame { filtered, planes }
            && filtered == (v.fed.dom().contains(id) && v.fed[id])
            && planes@ == targets(v, id == v.cluster.receiver, id),
        RecordKind::Audio => if v.audio.dom().contains(id) && v.audio[id] { r is Samples } else { r is Nothing },
        RecordKind::Other => r is Nothing,
    }
}

/// What a receiver or a stream saw in a window.
pub struct Stats {
    pub incoming: u64,
    pub dropped: u64,
    pub pushed: u64,
}

/// The line for a window in which something was seen.
pub open spec fn stats_words(fed: bool, id: u32, s: Stats, awaiting: bool, active: bool) -> Seq<char> {
    (if fed { "[feed] recv 0x"@ } else { "[cp_screen] recv 0x"@ }) + hex(id as nat) + ": in="@
        + dec(s.incoming as nat) + " dropped="@ + dec(s.dropped as nat) + " pushed="@ + dec(s.pushed as nat)
        + " awaiting_kf="@ + dec(if awaiting { 1 } else { 0 }) + " active="@ + dec(if active { 1 } else { 0 })
}

/// The line of the statistics for one receiver or fed stream. A window in which nothing was seen
/// has none.
pub fn stats_line(fed: bool, id: u32, s: &Stats, awaiting: bool, active: bool) -> (r: Option<String>)
    ensures
        match r {
            Some(line) => !(s.incoming == 0 && s.dropped == 0 && s.pushed == 0)
                && line@ == stats_words(fed, id, *s, awaiting, active),
            None => s.incoming == 0 && s.dropped == 0 && s.pushed == 0,
        },
{
    if s.incoming == 0 && s.dropped == 0 && s.pushed == 0 {
        return None;
    }
    let mut line = if fed { "[feed] recv 0x".to_owned() } else { "[cp_screen] recv 0x".to_owned() };
    put_number(&mut line, id as u64, 16);
    line.append(": in=");
    put_dec(&mut line, s.incoming);
    line.append(" dropped=");
    put_dec(&mut line, s.dropped);
    line.append(" pushed=");
    put_dec(&mut line, s.pushed);
    line.append(" awaiting_kf=");
    put_dec(&mut line, if awaiting { 1 } else { 0 });
    line.append(" active=");
    put_dec(&mut line, if active { 1 } else { 0 });
    Some(line)
}

/// What one receiver or fed stream saw in a window, with the state of its filter.
pub struct Window {
    /// A fed stream, rather than a receiver.
    pub fed: bool,
    /// The plane of a receiver, or the id of a fed stream.
    pub id: u32,
    pub stats: Stats,
    pub awaiting: bool,
    pub active: bool,
}

/// The lines of some windows, those in which nothing was seen left out.
pub open spec fn window_lines(list: Seq<Window>) -> Seq<Seq<char>>
    decreases list.len(),
{
    if list.len() == 0 {
        Seq::empty()
    } else {
        let w = list.last();
        let front = window_lines(list.drop_last());
        if w.stats.incoming == 0 && w.stats.dropped == 0 && w.stats.pushed == 0 {
            front
        } else {
            front.push(stats_words(w.fed, w.id, w.stats, w.awaiting, w.active))
        }
    }
}

/// What every receiver and fed stream saw in the last window, a line each.
pub fn take_stats(list: &Vec<Window>) -> (out: Vec<String>)
    ensures
        views(out@) == window_lines(list@),
{
    let mut out: Vec<String> = Vec::new();
    let mut i: usize = 0;
    assert(views(out@) =~= window_lines(list@.take(0)));
    while i < list.len()
        invariant
            i <= list@.len(),
            views(out@) == window_lines(list@.take(i as int)),
        decreases list@.len() - i,
    {
        assert(list@.take(i + 1).drop_last() =~= list@.take(i as int));
        let ghost before = views(out@);
        let w = &list[i];
        if let Some(line) = stats_line(w.fed, w.id, &w.stats, w.awaiting, w.active) {
            let ghost text = line@;
            out.push(line);
            assert(views(out@) =~= before.push(text));
        }
        i += 1;
    }
    assert(list@.take(i as int) =~= list@);
    out
}

/// The replies that hand drained samples up, the rate ahead of the samples.
pub open spec fn sample_replies(drained: Seq<(u32, Vec<u8>, u32)>) -> Seq<ReplySpec> {
    Seq::new(
        drained.len(),
        |i: int| ReplySpec { op: REPLY_VISUALIZER, id: drained[i].0, rest: le32(drained[i].2) + drained[i].1@ },
    )
}

/// What each reply in a list says.
pub open spec fn replies(list: Seq<Reply>) -> Seq<ReplySpec> {
    Seq::new(list.len(), |i: int| list[i]@)
}

impl Host {
    /// A plane was built and started. Says whose cached frames prime it.
    pub fn plane_created(&mut self, id: u32) -> (r: Prime)
        requires
            old(self)@.wf(),
        ensures
            final(self)@ == (HostSpec { planes: old(self)@.planes.insert(id), ..old(self)@ }),
            final(self)@.wf(),
            ({
                let v = old(self)@;
                let f = feeder(v.cluster, id);
                let at = active_at(v.receivers, f) as int;
                &&& r.receiver == (if at < v.receivers.len() { Some(v.receivers[at].id) } else { None })
                &&& r.fed == (if v.fed.dom().contains(f) && v.fed[f] { Some(f) } else { None })
            }),
    {
        broadcast use vstd::std_specs::hash::group_hash_axioms;
        let ghost was = self@;
        let f: u32 = feeder_of(&self.cluster, id);
        let ghost list = recvs(self.receivers@);
        let mut at: usize = 0;
        assert(list.skip(0) =~= list);
        while at < self.receivers.len() && !(self.receivers[at].active && self.receivers[at].plane_id == f)
            invariant
                at <= self.receivers@.len(),
                list == recvs(self.receivers@),
                active_at(list, f) == at + active_at(list.skip(at as int), f),
            decreases self.receivers@.len() - at,
        {
            assert(list.skip(at as int)[0] == self.receivers@[at as int]@);
            assert(list.skip(at as int).skip(1) =~= list.skip(at + 1));
            at += 1;
        }
        let receiver = if at < self.receivers.len() {
            assert(list.skip(at as int)[0] == self.receivers@[at as int]@);
            assert(list[at as int] == self.receivers@[at as int]@);
            Some(self.receivers[at].id)
        } else {
            assert(list.skip(at as int).len() == 0);
            None
        };
        let fed = match self.fed.get(&f) {
            Some(filtered) => if *filtered { Some(f) } else { None },
            None => None,
        };
        self.planes.insert(id);
        assert(self@.receivers =~= was.receivers);
        Prime { receiver, fed }
    }

    /// A receiver listens on a port. It is passive until it is chosen.
    pub fn listening(&mut self, id: u32, plane_id: u32, is_cluster: bool, port: u16) -> (r: Reply)
        requires
            old(self)@.wf(),
        ensures
            final(self)@.wf(),
            final(self)@ == (HostSpec {
                receivers: dropped(old(self)@.receivers, id).push(
                    Recv { id, plane_id, is_cluster, config: Seq::empty(), active: false },
                ),
                ..old(self)@
            }),
            r@ == (ReplySpec { op: REPLY_PORT, id, rest: le16(port) }),
    {
        self.drop_receiver(id);
        let ghost mid = self@;
        let ghost r = Recv { id, plane_id, is_cluster, config: Seq::empty(), active: false };
        proof {
            adding_keeps_one_feeder(mid, r);
        }
        self.receivers.push(Receiver { id, plane_id, is_cluster, config: Vec::new(), active: false });
        assert(self@.receivers =~= mid.receivers.push(r));
        let mut rest: Vec<u8> = Vec::new();
        put_le16(&mut rest, port);
        assert(rest@ =~= le16(port));
        Reply { op: REPLY_PORT, id, rest }
    }

    /// What came of opening a stream: whether its pipeline was built, and the ports that were bound
    /// for it. A stream the main process feeds needs no ports and answers with none. Otherwise a
    /// stream that cannot listen is not announced, nor is one without a pipeline, and nothing
    /// changes. A stream that opened is held until it is made active. Says whether it is tapped at
    /// once.
    pub fn audio_opened(&mut self, id: u32, fed: bool, built: bool, bound: Option<(u16, u16)>) -> (r: Option<(bool, Reply)>)
        requires
            old(self)@.wf(),
        ensures
            final(self)@.wf(),
            r is Some <==> built && (fed || bound is Some),
            r is None ==> final(self)@ == old(self)@,
            r matches Some((tap, reply)) ==> {
                let ports = if fed { (0u16, 0u16) } else { bound->0 };
                &&& final(self)@ == (HostSpec { audio: old(self)@.audio.insert(id, false), ..old(self)@ })
                &&& tap == old(self)@.visualizer_enabled
                &&& reply@ == (ReplySpec { op: REPLY_AUDIO_PORTS, id, rest: le16(ports.0) + le16(ports.1) })
            },
    {
        if !built {
            return None;
        }
        if fed {
            return Some(self.speaker_opened(id, 0, 0));
        }
        match bound {
            Some((data, control)) => Some(self.speaker_opened(id, data, control)),
            None => None,
        }
    }

    /// A stream's pipeline is up, with these ports.
    fn speaker_opened(&mut self, id: u32, data_port: u16, control_port: u16) -> (r: (bool, Reply))
        requires
            old(self)@.wf(),
        ensures
            final(self)@.wf(),
            final(self)@ == (HostSpec { audio: old(self)@.audio.insert(id, false), ..old(self)@ }),
            r.0 == old(self)@.visualizer_enabled,
            r.1@ == (ReplySpec { op: REPLY_AUDIO_PORTS, id, rest: le16(data_port) + le16(control_port) }),
    {
        broadcast use vstd::std_specs::hash::group_hash_axioms;
        let ghost was = self@;
        self.audio.insert(id, false);
        assert(self@.receivers =~= was.receivers);
        let mut rest: Vec<u8> = Vec::new();
        put_le16(&mut rest, data_port);
        assert(rest@ =~= le16(data_port));
        put_le16(&mut rest, control_port);
        (self.visualizer_enabled, Reply { op: REPLY_AUDIO_PORTS, id, rest })
    }

    /// A capture chain runs.
    pub fn uplink_opened(&mut self, id: u32)
        ensures
            final(self)@ == (HostSpec { uplinks: old(self)@.uplinks.insert(id), ..old(self)@ }),
    {
        broadcast use vstd::std_specs::hash::group_hash_axioms;
        let ghost was = self@;
        self.uplinks.insert(id);
        assert(self@.receivers =~= was.receivers);
    }

    /// A microphone tap runs.
    pub fn tap_opened(&mut self, id: u32)
        ensures
            final(self)@ == (HostSpec { taps: old(self)@.taps.insert(id), ..old(self)@ }),
    {
        broadcast use vstd::std_specs::hash::group_hash_axioms;
        let ghost was = self@;
        self.taps.insert(id);
        assert(self@.receivers =~= was.receivers);
    }

    /// The feed socket was bound, or was not. The reply carries the path back, or nothing.
    pub fn feed_opened(&mut self, id: u32, path: &[u8], bound: bool) -> (r: Reply)
        ensures
            final(self)@ == (HostSpec {
                helper_feed: if bound { true } else { old(self)@.helper_feed },
                ..old(self)@
            }),
            r@ == (ReplySpec { op: REPLY_FEED, id, rest: if bound { path@ } else { Seq::empty() } }),
    {
        let ghost was = self@;
        if bound {
            self.helper_feed = true;
            assert(self@.receivers =~= was.receivers);
            Reply { op: REPLY_FEED, id, rest: copy(path) }
        } else {
            Reply { op: REPLY_FEED, id, rest: Vec::new() }
        }
    }

    /// A receiver read a configuration: the codec byte and the atom. A keepalive carries no record,
    /// and the last one stays. A new record is forwarded while the receiver is active.
    pub fn on_config(&mut self, id: u32, codec: u8, atom: &[u8]) -> (r: Option<Reply>)
        requires
            old(self)@.wf(),
        ensures
            final(self)@.wf(),
            ({
                let v = old(self)@;
                let at = place(v.receivers, id) as int;
                if at >= v.receivers.len() || atom@.len() == 0 {
                    r is None && final(self)@ == v
                } else {
                    let config = seq![codec] + atom@;
                    &&& final(self)@ == (HostSpec {
                        receivers: v.receivers.update(at, Recv { config, ..v.receivers[at] }),
                        ..v
                    })
                    &&& match r {
                        Some(reply) => v.receivers[at].active
                            && reply@ == (ReplySpec { op: REPLY_CONFIG, id: v.receivers[at].plane_id, rest: config }),
                        None => !v.receivers[at].active,
                    }
                }
            }),
    {
        let ghost was = self@;
        let at: usize = self.find(id);
        if at >= self.receivers.len() || atom.len() == 0 {
            return None;
        }
        let mut config: Vec<u8> = Vec::new();
        config.push(codec);
        assert(config@ =~= seq![codec]);
        append(&mut config, atom);
        let copied = copy(&config);
        let ghost raw = self.receivers@;
        assert(was.receivers[at as int] == raw[at as int]@);
        self.receivers[at].config = config;
        assert(self.receivers@ =~= raw.update(at as int, Receiver { config, ..raw[at as int] }));
        assert(self@.receivers =~= was.receivers.update(at as int, Recv { config: config@, ..was.receivers[at as int] }));
        proof {
            configured_keeps_one_feeder(was, at as int, config@);
        }
        if self.receivers[at].active {
            Some(Reply { op: REPLY_CONFIG, id: self.receivers[at].plane_id, rest: copied })
        } else {
            None
        }
    }

    /// A receiver's stream started. It is reported while the receiver is active.
    pub fn on_started(&self, id: u32) -> (r: Option<Reply>)
        ensures
            ({
                let v = self@;
                let at = place(v.receivers, id) as int;
                match r {
                    Some(reply) => at < v.receivers.len() && v.receivers[at].active
                        && reply@ == (ReplySpec { op: REPLY_STARTED, id: v.receivers[at].plane_id, rest: Seq::empty() }),
                    None => at >= v.receivers.len() || !v.receivers[at].active,
                }
            }),
    {
        let at: usize = self.find(id);
        if at >= self.receivers.len() {
            return None;
        }
        assert(self@.receivers[at as int] == self.receivers@[at as int]@);
        if self.receivers[at].active {
            Some(Reply { op: REPLY_STARTED, id: self.receivers[at].plane_id, rest: Vec::new() })
        } else {
            None
        }
    }

    /// The planes a feeder serves.
    fn planes_of(&self, is_cluster: bool, plane_id: u32) -> (out: Vec<u32>)
        ensures
            out@ == targets(self@, is_cluster, plane_id),
    {
        broadcast use vstd::std_specs::hash::group_hash_axioms;
        let mut out: Vec<u32> = Vec::new();
        if !is_cluster {
            if self.planes.contains(&plane_id) {
                out.push(plane_id);
                assert(out@ =~= seq![plane_id]);
            }
            return out;
        }
        let max: u64 = self.cluster.plane_max as u64;
        let mut id: u64 = self.cluster.plane_min as u64;
        let ghost all = cluster_planes(self.planes@, id as int, max as int);
        assert(out@ + all =~= all);
        while id <= max
            invariant
                id <= max + 1 || id == self.cluster.plane_min,
                max == self.cluster.plane_max,
                all == out@ + cluster_planes(self.planes@, id as int, max as int),
                all == targets(self@, true, plane_id),
            decreases max + 1 - id,
        {
            let ghost before = out@;
            if self.planes.contains(&(id as u32)) {
                out.push(id as u32);
                assert(before + (seq![id as u32] + cluster_planes(self.planes@, id + 1, max as int))
                    =~= out@ + cluster_planes(self.planes@, id + 1, max as int));
            }
            id += 1;
        }
        assert(out@ + Seq::<u32>::empty() =~= out@);
        out
    }

    /// The planes a frame of a receiver is for. Whether it passes is for its filter to say.
    pub fn frame_targets(&self, id: u32) -> (r: Option<Vec<u32>>)
        ensures
            ({
                let v = self@;
                let at = place(v.receivers, id) as int;
                match r {
                    Some(out) => at < v.receivers.len()
                        && out@ == targets(v, v.receivers[at].is_cluster, v.receivers[at].plane_id),
                    None => at >= v.receivers.len(),
                }
            }),
    {
        let at: usize = self.find(id);
        if at >= self.receivers.len() {
            return None;
        }
        assert(self@.receivers[at as int] == self.receivers@[at as int]@);
        Some(self.planes_of(self.receivers[at].is_cluster, self.receivers[at].plane_id))
    }

    /// An audio receiver heard its first packet.
    pub fn on_audio_started(&self, id: u32, first_sample: u32) -> (r: Reply)
        ensures
            r@ == (ReplySpec { op: REPLY_AUDIO_STARTED, id, rest: le32(first_sample) }),
    {
        let mut rest: Vec<u8> = Vec::new();
        put_le32(&mut rest, first_sample);
        assert(rest@ =~= le32(first_sample));
        Reply { op: REPLY_AUDIO_STARTED, id, rest }
    }

    /// Takes one record of the helper's feed, and says what is to be done outside.
    pub fn on_record(&mut self, kind: RecordKind, id: u32, payload: &[u8]) -> (r: FeedStep)
        requires
            old(self)@.wf(),
        ensures
            fed_step(old(self)@, kind, id, payload@, r),
            final(self)@ == (if kind == RecordKind::VideoStart {
                HostSpec { fed: old(self)@.fed.insert(id, readable(payload@)), ..old(self)@ }
            } else {
                old(self)@
            }),
            final(self)@.wf(),
    {
        broadcast use vstd::std_specs::hash::group_hash_axioms;
        let ghost was = self@;
        match kind {
            RecordKind::VideoStart => {
                let filtered = payload.len() > 0 && payload[0] <= 1;
                self.fed.insert(id, filtered);
                assert(self@.receivers =~= was.receivers);
                if !filtered {
                    return FeedStep::Unfiltered;
                }
                let active = match self.wanted.get(&id) {
                    Some(w) => *w,
                    None => true,
                };
                FeedStep::Filtered { codec: payload[0], active }
            },
            RecordKind::Video => {
                let filtered = match self.fed.get(&id) {
                    Some(g) => *g,
                    None => false,
                };
                FeedStep::Frame { filtered, planes: self.planes_of(id == self.cluster.receiver, id) }
            },
            RecordKind::Audio => if self.sounds(id) { FeedStep::Samples } else { FeedStep::Nothing },
            RecordKind::Other => FeedStep::Nothing,
        }
    }

    /// Hands the samples that were drained from the streams up, the rate ahead of the samples,
    /// while a window wants them.
    pub fn pump_visualizer(&self, drained: &Vec<(u32, Vec<u8>, u32)>) -> (out: Vec<Reply>)
        ensures
            replies(out@) == (if self@.visualizer_enabled { sample_replies(drained@) } else { Seq::empty() }),
    {
        let mut out: Vec<Reply> = Vec::new();
        if !self.visualizer_enabled {
            assert(replies(out@) =~= Seq::<ReplySpec>::empty());
            return out;
        }
        let mut i: usize = 0;
        while i < drained.len()
            invariant
                i <= drained@.len(),
                out@.len() == i,
                forall|j: int| 0 <= j < i ==> (#[trigger] out@[j])@ == sample_replies(drained@)[j],
            decreases drained@.len() - i,
        {
            let mut rest: Vec<u8> = Vec::new();
            put_le32(&mut rest, drained[i].2);
            assert(rest@ =~= le32(drained@[i as int].2));
            append(&mut rest, &drained[i].1);
            out.push(Reply { op: REPLY_VISUALIZER, id: drained[i].0, rest });
            i += 1;
        }
        assert(replies(out@) =~= sample_replies(drained@));
        out
    }
}

proof fn configured_keeps_one_feeder(v: HostSpec, at: int, config: Seq<u8>)
    requires
        v.wf(),
        0 <= at < v.receivers.len(),
    ensures
        (HostSpec { receivers: v.receivers.update(at, Recv { config, ..v.receivers[at] }), ..v }).wf(),
{
    let n = HostSpec { receivers: v.receivers.update(at, Recv { config, ..v.receivers[at] }), ..v };
    assert forall|i: int, j: int| 0 <= i < j < n.receivers.len() implies
        (#[trigger] n.receivers[i]).id != (#[trigger] n.receivers[j]).id
        && (n.receivers[i].plane_id == n.receivers[j].plane_id ==> !(n.receivers[i].active && n.receivers[j].active)) by {
        assert(v.receivers[i].id != v.receivers[j].id);
        assert(v.receivers[i].plane_id == n.receivers[i].plane_id);
        assert(v.receivers[j].plane_id == n.receivers[j].plane_id);
    }
    assert forall|i: int| 0 <= i < n.receivers.len() && (#[trigger] n.receivers[i]).active
        implies !fed_active(n, n.receivers[i].plane_id) by {
        assert(v.receivers[i].active);
    }
}

/// One screen has one feeder: of all receivers of a plane and the fed stream of that plane, at
/// most one is active.
pub proof fn one_screen_has_one_feeder(v: HostSpec, i: int, j: int)
    requires
        v.wf(),
        0 <= i < v.receivers.len(),
        0 <= j < v.receivers.len(),
        v.receivers[i].active,
        v.receivers[j].active,
        v.receivers[i].plane_id == v.receivers[j].plane_id,
    ensures
        i == j,
        !fed_active(v, v.receivers[i].plane_id),
{
    if i < j {
        assert(!(v.receivers[i].active && v.receivers[j].active));
    } else if j < i {
        assert(!(v.receivers[j].active && v.receivers[i].active));
    }
}

/// The plane a choice of a feeder is about: the one of the receiver it names, else the fed stream's
/// own.
pub open spec fn plane_of(v: HostSpec, id: u32) -> u32 {
    let at = place(v.receivers, id) as int;
    if at < v.receivers.len() { v.receivers[at].plane_id } else { id }
}

/// The feeder that is made active is the one of its plane, a receiver before a fed stream: every
/// other receiver of the plane is held, and so is the fed stream where a receiver was chosen.
/// Feeders of other planes are left as they were, receivers and fed streams alike.
pub proof fn activating_leaves_other_planes_alone(v: HostSpec, id: u32, i: int, other: u32)
    requires
        v.wf(),
        other != plane_of(v, id),
    ensures
        ({
            let at = place(v.receivers, id) as int;
            let plane = plane_of(v, id);
            let n = activated(v, id, true);
            &&& n.wf()
            &&& n.receivers.len() == v.receivers.len()
            &&& at < v.receivers.len() ==> n.receivers[at].active && !fed_active(n, plane)
            &&& at >= v.receivers.len() ==> fed_active(n, plane)
            &&& 0 <= i < v.receivers.len() && v.receivers[i].plane_id == plane && i != at
                ==> !n.receivers[i].active
            &&& 0 <= i < v.receivers.len() && v.receivers[i].plane_id != plane
                ==> n.receivers[i] == v.receivers[i]
            &&& fed_active(n, other) == fed_active(v, other)
        }),
{
    keeps_one_feeder(v, id, true);
    place_bounds(v.receivers, id);
    let at = place(v.receivers, id) as int;
    if 0 <= i < v.receivers.len() && at < v.receivers.len() {
        if i < at {
            assert(v.receivers[i].id != v.receivers[at].id);
        } else if at < i {
            assert(v.receivers[at].id != v.receivers[i].id);
        }
    }
}

/// Holding a feeder leaves every other feeder as it was.
pub proof fn holding_leaves_the_others_alone(v: HostSpec, id: u32, i: int, other: u32)
    requires
        v.wf(),
    ensures
        ({
            let at = place(v.receivers, id) as int;
            let n = activated(v, id, false);
            &&& n.wf()
            &&& 0 <= i < v.receivers.len() && i != at ==> n.receivers[i] == v.receivers[i]
            &&& at < v.receivers.len() ==> !n.receivers[at].active && fed_active(n, other) == fed_active(v, other)
            &&& at >= v.receivers.len() ==> !fed_active(n, id)
            &&& other != id ==> fed_active(n, other) == fed_active(v, other)
        }),
{
    keeps_one_feeder(v, id, false);
    place_bounds(v.receivers, id);
}

/// A fed stream that starts late takes the answer of an earlier choice.
pub proof fn a_late_stream_takes_the_earlier_choice(v: HostSpec, id: u32, active: bool)
    requires
        v.wf(),
        place(v.receivers, id) == v.receivers.len(),
    ensures
        fed_active(activated(v, id, active), id) == active,
{
}

/// A message that opens a receiver asks for the plane, the cluster flag and the key it carries, and one
/// that is too short asks for nothing.
pub proof fn a_listen_message_is_acted_on(v: HostSpec, id: u32, plane: u32, flag: u8, key: Seq<u8>, more: Seq<u8>, r: Request)
    requires
        key.len() == 32,
    ensures
        requested(v, 5, id, le32(plane) + seq![flag] + key + more, r) ==> (r matches Request::Listen {
            id: i,
            plane_id,
            cluster,
            key: k,
        } && i == id && plane_id == plane && cluster == (flag % 2 == 1) && k@ == key),
        more.len() < 37 && requested(v, 5, id, more, r) ==> r is Nothing,
{
    let m = le32(plane) + seq![flag] + key + more;
    assert(m.subrange(0, 4) =~= le32(plane));
    crate::bytes::integers_read_back(m, 0, 0, plane);
    assert(m[4] == flag);
    assert(m.subrange(5, 37) =~= key);
}

/// A gamma message sets the five values it carries, eight bytes each in their order, least significant
/// first, on a plane that is there.
pub proof fn a_gamma_message_is_acted_on(v: HostSpec, id: u32, rest: Seq<u8>, r: Request, k: int)
    requires
        0 <= k < 5,
        requested(v, 4, id, rest, r),
    ensures
        rest.len() >= 40 && v.planes.contains(id) ==> (r matches Request::Gamma { id: i, values } && i == id
            && values@[k] == rest[8 * k] + 0x100 * rest[8 * k + 1] + 0x1_0000 * rest[8 * k + 2]
            + 0x100_0000 * rest[8 * k + 3] + 0x1_0000_0000 * (rest[8 * k + 4] + 0x100 * rest[8 * k + 5]
            + 0x1_0000 * rest[8 * k + 6] + 0x100_0000 * rest[8 * k + 7])),
        rest.len() < 40 || !v.planes.contains(id) ==> r is Nothing,
{
}

/// What the other messages ask for: frames go to a plane that is there and samples to a stream that
/// sounds, each as it came. What ends something names it, a flag is handed on, and an unknown message
/// asks for nothing and changes nothing.
pub proof fn what_a_message_asks_for(v: HostSpec, op: u8, id: u32, rest: Seq<u8>, r: Request)
    requires
        requested(v, op, id, rest, r),
    ensures
        op == 2 && v.planes.contains(id) ==> (r matches Request::Push { id: i, data } && i == id && data@ == rest),
        op == 2 && !v.planes.contains(id) ==> r is Nothing,
        op == 14 && v.audio.contains_pair(id, true) ==> (r matches Request::Samples { id: i, data } && i == id && data@ == rest),
        op == 14 && !v.audio.contains_pair(id, true) ==> r is Nothing,
        op == 3 ==> r == Request::DropPlane(id),
        op == 6 ==> r == Request::DropReceiver(id),
        op == 10 ==> r == Request::DropSpeaker(id),
        op == 12 ==> r == Request::DropUplink(id),
        op == 21 ==> r == Request::DropTap(id),
        op == 13 ==> r is Nothing,
        op == 15 ==> r == Request::Visualizer(rest.len() > 0 && rest[0] % 2 == 1),
        op == 16 && valid_utf8(rest) ==> (r matches Request::OpenFeed { id: i, path } && i == id
            && vstd::utf8::encode_utf8(path@) == rest),
        op == 16 && !valid_utf8(rest) ==> r is Nothing,
        op == 0 || 17 <= op <= 19 || op >= 22 ==> r is Nothing && after(v, op, id, rest) == v,
{
    if op == 16 && valid_utf8(rest) {
        vstd::utf8::decode_utf8_encode_utf8(rest);
    }
}

/// A message changes what it is about and nothing else: planes, streams and taps of other ids stay, and
/// one of its own id goes only with the message that ends it, or for a plane with the one that builds
/// it anew.
pub proof fn a_message_changes_its_own_part(v: HostSpec, op: u8, id: u32, rest: Seq<u8>, other: u32)
    requires
        v.wf(),
    ensures
        ({
            let n = after(v, op, id, rest);
            let rebuilt = op == 3 || (op == 1 && create_of(rest) is Some);
            let flag = rest.len() > 0 && rest[0] % 2 == 1;
            &&& n.planes.contains(other) == (v.planes.contains(other) && !(other == id && rebuilt))
            &&& n.uplinks.contains(other) == (v.uplinks.contains(other) && !(other == id && op == 12))
            &&& n.taps.contains(other) == (v.taps.contains(other) && !(other == id && op == 21))
            &&& n.audio.dom().contains(other) == (v.audio.dom().contains(other) && !(other == id && op == 10))
            &&& n.audio.dom().contains(other) ==> n.audio[other] == (if op == 13 && other == id { flag } else { v.audio[other] })
            &&& n.visualizer_enabled == (if op == 15 { flag } else { v.visualizer_enabled })
            &&& n.helper_feed == (v.helper_feed && !(op == 16 && valid_utf8(rest)))
            &&& n.fed == v.fed
            &&& n.cluster == v.cluster
            &&& op != 7 ==> n.wanted == v.wanted
            &&& op == 6 ==> n.receivers == v.receivers.filter(|r: Recv| r.id != id)
            &&& op != 6 && op != 7 ==> n.receivers == v.receivers
        }),
{
    if op == 6 {
        place_bounds(v.receivers, id);
        dropping_is_filtering(v.receivers, id);
    }
}

proof fn dropping_is_filtering(list: Seq<Recv>, id: u32)
    requires
        forall|i: int, j: int| 0 <= i < j < list.len() ==> (#[trigger] list[i]).id != (#[trigger] list[j]).id,
    ensures
        dropped(list, id) == list.filter(|r: Recv| r.id != id),
    decreases list.len(),
{
    reveal(Seq::filter);
    place_bounds(list, id);
    let at = place(list, id) as int;
    if list.len() > 0 {
        let front = list.drop_last();
        assert forall|i: int, j: int| 0 <= i < j < front.len() implies (#[trigger] front[i]).id != (#[trigger] front[j]).id by {
            assert(list[i].id != list[j].id);
        }
        dropping_is_filtering(front, id);
        place_bounds(front, id);
        if at < front.len() {
            place_is(front, id, at);
            assert(list.remove(at) =~= front.remove(at).push(list.last()));
            assert(list[at].id != list.last().id);
        } else {
            place_is(front, id, front.len() as int);
            if at < list.len() {
                assert(list.remove(at) =~= front);
            } else {
                assert(list =~= front.push(list.last()));
            }
        }
    } else {
        assert(dropped(list, id) =~= list.filter(|r: Recv| r.id != id));
    }
}

/// The receiver an id names is the first of the list that has it.
pub proof fn an_id_names_the_first_receiver(list: Seq<Recv>, id: u32)
    ensures
        place(list, id) <= list.len(),
        place(list, id) < list.len() ==> list[place(list, id) as int].id == id,
        forall|j: int| 0 <= j < place(list, id) ==> (#[trigger] list[j]).id != id,
{
    place_bounds(list, id);
}

/// A frame reaches every plane it is for that is there, once, and no other: those of the cluster, or
/// the one its feeder is for.
pub proof fn a_frame_reaches_its_planes(v: HostSpec, cluster: bool, plane_id: u32, p: u32)
    ensures
        targets(v, cluster, plane_id).contains(p) <==> v.planes.contains(p) && (if cluster {
            v.cluster.plane_min <= p <= v.cluster.plane_max
        } else {
            p == plane_id
        }),
        targets(v, cluster, plane_id).no_duplicates(),
        cluster ==> forall|i: int, j: int| 0 <= i < j < targets(v, cluster, plane_id).len() ==>
            #[trigger] targets(v, cluster, plane_id)[i] < #[trigger] targets(v, cluster, plane_id)[j],
{
    if cluster {
        planes_in_order(v.planes, v.cluster.plane_min as int, v.cluster.plane_max as int, p);
    } else if v.planes.contains(plane_id) {
        assert(targets(v, cluster, plane_id)[0] == plane_id);
    }
}

proof fn planes_in_order(planes: Set<u32>, from: int, max: int, p: u32)
    requires
        0 <= from,
        max <= u32::MAX,
    ensures
        ({
            let t = cluster_planes(planes, from, max);
            &&& t.contains(p) <==> planes.contains(p) && from <= p <= max
            &&& forall|i: int| 0 <= i < t.len() ==> from <= #[trigger] t[i] <= max
            &&& forall|i: int, j: int| 0 <= i < j < t.len() ==> #[trigger] t[i] < #[trigger] t[j]
        }),
    decreases max - from + 1,
{
    if from <= max {
        planes_in_order(planes, from + 1, max, p);
        let tail = cluster_planes(planes, from + 1, max);
        let t = cluster_planes(planes, from, max);
        if planes.contains(from as u32) {
            assert(t == seq![from as u32] + tail);
            if t.contains(p) && p != from {
                let k = choose|k: int| 0 <= k < t.len() && t[k] == p;
                assert(tail[k - 1] == p);
            }
            if tail.contains(p) {
                let k = choose|k: int| 0 <= k < tail.len() && tail[k] == p;
                assert(t[k + 1] == p);
            }
            assert(t[0] == from as u32);
            assert forall|i: int| 0 <= i < t.len() implies from <= #[trigger] t[i] <= max by {
                if i > 0 {
                    assert(t[i] == tail[i - 1]);
                }
            }
            assert forall|i: int, j: int| 0 <= i < j < t.len() implies #[trigger] t[i] < #[trigger] t[j] by {
                assert(t[j] == tail[j - 1]);
                if i > 0 {
                    assert(t[i] == tail[i - 1]);
                }
            }
        }
    }
}

/// A new plane is primed by the first receiver of its feeder that is active, and by none only where
/// none is.
pub proof fn the_active_receiver_is_found(list: Seq<Recv>, plane_id: u32)
    ensures
        ({
            let at = active_at(list, plane_id) as int;
            &&& at <= list.len()
            &&& at < list.len() ==> list[at].active && list[at].plane_id == plane_id
            &&& forall|j: int| 0 <= j < at ==> !((#[trigger] list[j]).active && list[j].plane_id == plane_id)
        }),
    decreases list.len(),
{
    let at = active_at(list, plane_id) as int;
    if list.len() > 0 && !(list[0].active && list[0].plane_id == plane_id) {
        let tail = list.skip(1);
        the_active_receiver_is_found(tail, plane_id);
        assert forall|j: int| 0 <= j < at implies !((#[trigger] list[j]).active && list[j].plane_id == plane_id) by {
            if j > 0 {
                assert(list[j] == tail[j - 1]);
            }
        }
        if at < list.len() {
            assert(list[at] == tail[at - 1]);
        }
    }
}

/// What is done at the filters is what the host knows from then on: every fed stream that is filtered
/// and whose part changed is told, with its new part, and waits for a keyframe where it was held before.
/// Every receiver that was let through and no longer is belongs to the plane that is held or is the one
/// that is named, and one that is let through is named. Its configuration goes up for its plane.
pub proof fn the_filters_hear_what_changed(v: HostSpec, id: u32, active: bool, a: Activation, f: u32, i: int)
    requires
        v.wf(),
        activates(v, id, active, a),
    ensures
        ({
            let n = activated(v, id, active);
            let before = v.receivers[i];
            let now = n.receivers[i];
            &&& v.fed.contains_pair(f, true) && fed_active(n, f) != fed_active(v, f)
                ==> a.fed == Some((f, fed_active(n, f), fed_active(n, f)))
            &&& a.fed matches Some((g, on, anew)) ==> v.fed.contains_pair(g, true) && on == fed_active(n, g)
                && anew == (on && !fed_active(v, g))
            &&& 0 <= i < v.receivers.len() ==> {
                &&& now.id == before.id && now.plane_id == before.plane_id && now.config == before.config
                    && now.is_cluster == before.is_cluster
                &&& before.active && !now.active ==> a.hold == Some(before.plane_id) || a.receiver == Some((before.id, false))
                &&& !before.active && now.active ==> a.receiver == Some((before.id, true))
                &&& a.hold == Some(before.plane_id) ==> (now.active <==> a.receiver == Some((before.id, true)))
                &&& a.receiver == Some((before.id, true)) ==> now.active && a.hold == Some(before.plane_id)
                    && (a.reply is Some <==> before.config.len() > 0)
                    && (a.reply matches Some(reply) ==> reply.op == 2 && reply.id == before.plane_id
                        && reply.rest@ == before.config)
                &&& a.receiver == Some((before.id, false)) ==> !now.active && a.reply is None
            }
            &&& a.receiver is None ==> a.reply is None
        }),
{
    place_bounds(v.receivers, id);
    let at = place(v.receivers, id) as int;
    let n = activated(v, id, active);
    if 0 <= i < v.receivers.len() && at < v.receivers.len() && i != at {
        assert(v.receivers[i].id != v.receivers[at].id) by {
            if i < at {
            } else {
                assert(v.receivers[at].id != v.receivers[i].id);
            }
        }
    }
}

/// What a record of the helper's feed comes to: a stream whose first byte names a known codec is
/// filtered and let through as it was last decided, its frames reach its planes, and samples pass where
/// their stream sounds.
pub proof fn what_a_record_comes_to(v: HostSpec, id: u32, payload: Seq<u8>, r: FeedStep, p: u32)
    ensures
        fed_step(v, RecordKind::VideoStart, id, payload, r) && payload.len() > 0 && payload[0] <= 1 ==> (r
            == FeedStep::Filtered { codec: payload[0], active: !v.wanted.contains_pair(id, false) }),
        fed_step(v, RecordKind::VideoStart, id, payload, r) && !(payload.len() > 0 && payload[0] <= 1) ==> r is Unfiltered,
        fed_step(v, RecordKind::Video, id, payload, r) ==> (r matches FeedStep::Frame { filtered, planes }
            && filtered == v.fed.contains_pair(id, true) && (planes@.contains(p) <==> v.planes.contains(p)
            && (if id == v.cluster.receiver { v.cluster.plane_min <= p <= v.cluster.plane_max } else { p == id }))),
        fed_step(v, RecordKind::Audio, id, payload, r) ==> (if v.audio.contains_pair(id, true) { r is Samples } else { r is Nothing }),
        fed_step(v, RecordKind::Other, id, payload, r) ==> r is Nothing,
{
    a_frame_reaches_its_planes(v, id == v.cluster.receiver, id, p);
}

/// Each window in which something was seen has its line, in order, and the others have none.
pub proof fn every_window_counts(a: Seq<Window>, w: Window, b: Seq<Window>)
    ensures
        window_lines(a + seq![w] + b) == window_lines(a) + (if w.stats.incoming > 0 || w.stats.dropped > 0 || w.stats.pushed > 0 {
            seq![stats_words(w.fed, w.id, w.stats, w.awaiting, w.active)]
        } else {
            Seq::empty()
        }) + window_lines(b),
        window_lines(Seq::<Window>::empty()).len() == 0,
    decreases b.len(),
{
    let s = a + seq![w] + b;
    let e = Seq::<Seq<char>>::empty();
    let one = if w.stats.incoming > 0 || w.stats.dropped > 0 || w.stats.pushed > 0 {
        seq![stats_words(w.fed, w.id, w.stats, w.awaiting, w.active)]
    } else {
        e
    };
    if b.len() == 0 {
        assert(s.drop_last() =~= a);
        assert(s.last() == w);
        assert(window_lines(s) =~= window_lines(a) + one + window_lines(b));
    } else {
        every_window_counts(a, w, b.drop_last());
        assert(s.drop_last() =~= a + seq![w] + b.drop_last());
        assert(s.last() == b.last());
        assert(window_lines(s) =~= window_lines(a) + one + window_lines(b));
    }
}

} // verus!
