use std::collections::{HashMap, HashSet};

use livi::host::{take_stats, Activation, FeedStep, Host, RecordKind, Request, Stats, Window};
use livi::host_messages::{
    AudioCodec, Cluster, Framer, Reply, OP_AUDIO_ACTIVE, OP_AUDIO_DATA, OP_AUDIO_OPEN, OP_AUDIO_STOP,
    OP_AUDIO_VOLUME, OP_CREATE, OP_DATA, OP_FEED_OPEN, OP_GAMMA, OP_LISTEN, OP_MIC_OPEN, OP_MIC_STOP,
    OP_SET_ACTIVE, OP_STOP, OP_TAP_OPEN, OP_TAP_STOP, OP_TEARDOWN, OP_VISUALIZER, REPLY_AUDIO_PORTS,
    REPLY_AUDIO_STARTED, REPLY_CONFIG, REPLY_FEED, REPLY_PORT, REPLY_STARTED, REPLY_VISUALIZER,
};

const MAIN_PLANE: u32 = 0x7a00_0001;
const CLUSTER_RECV_ID: u32 = 0x7a00_0010;
const CLUSTER_PLANE_MIN: u32 = 0x7a00_0011;
const CLUSTER_PLANE_MAX: u32 = 0x7a00_001f;
const CLUSTER_A: u32 = 0x7a00_0011;
const CLUSTER_B: u32 = 0x7a00_0012;
const KEYFRAME: u8 = 5;
const DELTA: u8 = 1;
const MUSIC: u32 = 0x7b00_0001;
const MIC: u32 = 0x7b00_0009;
const HEAD: usize = 5;

const H264: u8 = 0;
const H265: u8 = 1;

/// A keyframe filter: nothing passes before a keyframe, and the frames since it are kept.
struct Fan {
    active: bool,
    awaiting: bool,
    cache: Vec<Vec<u8>>,
    stats: Stats,
}

impl Fan {
    fn new(active: bool) -> Self {
        Fan { active, awaiting: true, cache: Vec::new(), stats: none_seen() }
    }

    fn restart(&mut self) {
        self.awaiting = true;
        self.cache.clear();
    }

    fn take(&mut self, nal: &[u8], has_target: bool) -> bool {
        self.stats.incoming += 1;
        if !self.active {
            return false;
        }
        if nal[4] & 0x1f == KEYFRAME {
            self.awaiting = false;
            self.cache.clear();
        } else if self.awaiting {
            self.stats.dropped += 1;
            return false;
        }
        self.cache.push(nal.to_vec());
        if has_target {
            self.stats.pushed += 1;
        }
        has_target
    }
}

fn none_seen() -> Stats {
    Stats { incoming: 0, dropped: 0, pushed: 0 }
}

#[derive(Default)]
struct FakePlane {
    started: usize,
    pushed: Vec<Vec<u8>>,
    gamma: Option<[f64; 5]>,
}

#[derive(Default)]
struct FakeSpeaker {
    pushed: Vec<Vec<u8>>,
    volume: Option<f64>,
    ramp_ms: Option<u64>,
    visualizer_on: Option<bool>,
    visualizer: Vec<u8>,
}

#[derive(Default)]
struct World {
    planes: Vec<FakePlane>,
    plane_of: HashMap<u32, usize>,
    codecs: Vec<(String, Vec<u8>)>,
    sinks: Vec<u32>,
    keys: Vec<Vec<u8>>,
    fans: HashMap<u32, Fan>,
    plane_ids: HashMap<u32, u32>,
    fed_fans: HashMap<u32, Option<Fan>>,
    speakers: Vec<FakeSpeaker>,
    speaker_of: HashMap<u32, usize>,
    audio_cfgs: Vec<(AudioCodec, u8, u32, u8, u32, bool, Option<String>)>,
    audio_sinks: Vec<u32>,
    audio_keys: Vec<Vec<u8>>,
    uplinks: Vec<(u8, u32, u8, u32, u32, u16, String, Option<String>)>,
    open_uplinks: HashSet<u32>,
    uplinks_dropped: usize,
    taps: Vec<(u32, u8, Option<String>, String)>,
    open_taps: HashSet<u32>,
    taps_dropped: usize,
    feed_paths: Vec<String>,
    refuse_plane: bool,
    refuse_tap: bool,
    refuse_speaker: bool,
    refuse_uplink: bool,
    refuse_feed: bool,
    deaf: bool,
    audio_deaf: bool,
}

type Sent = (u8, u32, Vec<u8>);

struct Fixture {
    host: Host,
    framer: Framer,
    world: World,
    sent: Vec<Sent>,
}

impl Fixture {
    fn new() -> Self {
        let cluster = Cluster {
            receiver: CLUSTER_RECV_ID,
            plane_min: CLUSTER_PLANE_MIN,
            plane_max: CLUSTER_PLANE_MAX,
        };
        Fixture { host: Host::new(cluster), framer: Framer::new(), world: World::default(), sent: Vec::new() }
    }

    fn feed(&mut self, chunk: &[u8]) {
        self.framer.push(chunk);
        while let Some(m) = self.framer.next_message() {
            let request = self.host.dispatch(m.op, m.id, &m.rest);
            self.perform(request);
        }
    }

    fn send(&mut self, op: u8, id: u32, rest: &[u8]) {
        self.feed(&frame(op, id, rest));
    }

    fn say(&mut self, r: Reply) {
        self.sent.push((r.op, r.id, r.rest));
    }

    fn push_plane(&mut self, id: u32, data: &[u8]) {
        let at = self.world.plane_of[&id];
        self.world.planes[at].pushed.push(data.to_vec());
    }

    fn perform(&mut self, request: Request) {
        match request {
            Request::Nothing => {}
            Request::CreatePlane { id, codec, data } => {
                self.world.plane_of.remove(&id);
                if self.world.refuse_plane {
                    return;
                }
                self.world.codecs.push((codec, data));
                self.world.planes.push(FakePlane { started: 1, ..FakePlane::default() });
                self.world.plane_of.insert(id, self.world.planes.len() - 1);
                let prime = self.host.plane_created(id);
                if let Some(r) = prime.receiver {
                    let cached = self.world.fans[&r].cache.clone();
                    for f in cached {
                        self.push_plane(id, &f);
                    }
                }
                if let Some(s) = prime.fed {
                    let cached = self.world.fed_fans[&s].as_ref().unwrap().cache.clone();
                    for f in cached {
                        self.push_plane(id, &f);
                    }
                }
            }
            Request::Push { id, data } => self.push_plane(id, &data),
            Request::DropPlane(id) => {
                self.world.plane_of.remove(&id);
            }
            Request::Gamma { id, values } => {
                let at = self.world.plane_of[&id];
                let mut v = [0f64; 5];
                for (slot, bits) in v.iter_mut().zip(values) {
                    *slot = f64::from_bits(bits);
                }
                self.world.planes[at].gamma = Some(v);
            }
            Request::Listen { id, plane_id, cluster, key } => {
                if self.world.deaf {
                    return;
                }
                self.world.keys.push(key);
                self.world.sinks.push(id);
                self.world.fans.insert(id, Fan::new(false));
                self.world.plane_ids.insert(id, plane_id);
                let r = self.host.listening(id, plane_id, cluster, 5555);
                self.say(r);
            }
            Request::DropReceiver(id) => {
                self.world.fans.remove(&id);
            }
            Request::Activate(a) => self.activate(a),
            Request::OpenSpeaker { id, audio, fed } => {
                let built = !self.world.refuse_speaker;
                let mut bound = None;
                if built {
                    self.world.audio_cfgs.push((
                        audio.codec,
                        audio.payload_type,
                        audio.clock_rate,
                        audio.channels,
                        audio.latency_ms,
                        audio.realtime,
                        audio.device,
                    ));
                    self.world.speakers.push(FakeSpeaker::default());
                    if !fed && !self.world.audio_deaf {
                        self.world.audio_keys.push(audio.key);
                        self.world.audio_sinks.push(id);
                        bound = Some((6000, 6001));
                    }
                }
                if let Some((tap, reply)) = self.host.audio_opened(id, fed, built, bound) {
                    let at = self.world.speakers.len() - 1;
                    self.world.speaker_of.insert(id, at);
                    if tap {
                        self.world.speakers[at].visualizer_on = Some(true);
                    }
                    self.say(reply);
                }
            }
            Request::Volume { id, level, ms } => {
                let at = self.world.speaker_of[&id];
                self.world.speakers[at].volume = Some(f64::from_bits(level));
                self.world.speakers[at].ramp_ms = Some(ms);
            }
            Request::DropSpeaker(id) => {
                self.world.speaker_of.remove(&id);
            }
            Request::OpenUplink { id, uplink } => {
                if self.world.refuse_uplink {
                    return;
                }
                self.world.uplinks.push((
                    uplink.payload_type,
                    uplink.sample_rate,
                    uplink.channels,
                    uplink.bitrate,
                    uplink.frame_ms,
                    uplink.port,
                    uplink.phone,
                    uplink.device,
                ));
                self.world.open_uplinks.insert(id);
                self.host.uplink_opened(id);
            }
            Request::DropUplink(id) => {
                if self.world.open_uplinks.remove(&id) {
                    self.world.uplinks_dropped += 1;
                }
            }
            Request::OpenTap { id, tap } => {
                if self.world.refuse_tap {
                    return;
                }
                self.world.taps.push((tap.sample_rate, tap.channels, tap.device, tap.path));
                self.world.open_taps.insert(id);
                self.host.tap_opened(id);
            }
            Request::DropTap(id) => {
                if self.world.open_taps.remove(&id) {
                    self.world.taps_dropped += 1;
                }
            }
            Request::Samples { id, data } => {
                let at = self.world.speaker_of[&id];
                self.world.speakers[at].pushed.push(data);
            }
            Request::Visualizer(on) => {
                for at in self.world.speaker_of.values() {
                    self.world.speakers[*at].visualizer_on = Some(on);
                }
            }
            Request::OpenFeed { id, path } => {
                let bound = !self.world.refuse_feed;
                let r = self.host.feed_opened(id, path.as_bytes(), bound);
                if bound {
                    self.world.feed_paths.push(path);
                }
                self.say(r);
            }
        }
    }

    fn activate(&mut self, a: Activation) {
        let chosen = a.receiver.map(|(id, _)| id);
        if let Some(plane) = a.hold {
            for (id, p) in &self.world.plane_ids {
                if *p == plane && Some(*id) != chosen {
                    if let Some(f) = self.world.fans.get_mut(id) {
                        f.active = false;
                    }
                }
            }
        }
        if let Some((id, active, restart)) = a.fed {
            let f = self.world.fed_fans.get_mut(&id).unwrap().as_mut().unwrap();
            if restart {
                f.restart();
            }
            f.active = active;
        }
        if let Some((id, active)) = a.receiver {
            let f = self.world.fans.get_mut(&id).unwrap();
            f.active = active;
            if active {
                f.restart();
            }
        }
        if let Some(r) = a.reply {
            self.say(r);
        }
    }

    fn config(&mut self, i: usize, codec: u8, atom: &[u8]) {
        let id = self.world.sinks[i];
        if let Some(r) = self.host.on_config(id, codec, atom) {
            self.say(r);
        }
    }

    fn frame_in(&mut self, i: usize, nal: &[u8]) {
        let id = self.world.sinks[i];
        let planes = self.host.frame_targets(id).unwrap();
        if self.world.fans.get_mut(&id).unwrap().take(nal, !planes.is_empty()) {
            for p in planes {
                self.push_plane(p, nal);
            }
        }
    }

    fn started_in(&mut self, i: usize) {
        if let Some(r) = self.host.on_started(self.world.sinks[i]) {
            self.say(r);
        }
    }

    fn feeder(&mut self, recv_id: u32, plane_id: u32, cluster: bool) {
        self.send(OP_LISTEN, recv_id, &listen_body(plane_id, cluster, 1));
        self.send(OP_SET_ACTIVE, recv_id, &[1]);
    }

    fn open_feed(&mut self, path: &str) {
        self.send(OP_FEED_OPEN, 9, path.as_bytes());
    }

    fn feed_in(&mut self, kind: RecordKind, id: u32, payload: &[u8]) {
        match self.host.on_record(kind, id, payload) {
            FeedStep::Nothing => {}
            FeedStep::Filtered { codec: _, active } => {
                self.world.fed_fans.insert(id, Some(Fan::new(active)));
            }
            FeedStep::Unfiltered => {
                self.world.fed_fans.insert(id, None);
            }
            FeedStep::Frame { filtered, planes } => {
                let has_target = !planes.is_empty();
                let pass = if filtered {
                    self.world.fed_fans.get_mut(&id).unwrap().as_mut().unwrap().take(payload, has_target)
                } else {
                    has_target
                };
                if pass {
                    for p in planes {
                        self.push_plane(p, payload);
                    }
                }
            }
            FeedStep::Samples => {
                let at = self.world.speaker_of[&id];
                self.world.speakers[at].pushed.push(payload.to_vec());
            }
        }
    }

    fn rtp_in(&mut self, i: usize, rtp: &[u8]) {
        let id = self.world.audio_sinks[i];
        if self.host.sounds(id) {
            let at = self.world.speaker_of[&id];
            self.world.speakers[at].pushed.push(rtp.to_vec());
        }
    }

    fn take_stats(&mut self) -> Vec<String> {
        let mut list = Vec::new();
        for (id, f) in self.world.fans.iter_mut() {
            let stats = std::mem::replace(&mut f.stats, none_seen());
            list.push(Window {
                fed: false,
                id: self.world.plane_ids[id],
                stats,
                awaiting: f.awaiting,
                active: f.active,
            });
        }
        for (id, f) in self.world.fed_fans.iter_mut() {
            if let Some(f) = f {
                let stats = std::mem::replace(&mut f.stats, none_seen());
                list.push(Window { fed: true, id: *id, stats, awaiting: f.awaiting, active: f.active });
            }
        }
        take_stats(&list)
    }

    fn pump_visualizer(&mut self) {
        let mut drained = Vec::new();
        for (id, at) in &self.world.speaker_of {
            let samples = std::mem::take(&mut self.world.speakers[*at].visualizer);
            if !samples.is_empty() {
                drained.push((*id, samples, 48000));
            }
        }
        for r in self.host.pump_visualizer(&drained) {
            self.say(r);
        }
    }
}

fn frame(op: u8, id: u32, rest: &[u8]) -> Vec<u8> {
    let mut v = ((HEAD + rest.len()) as u32).to_le_bytes().to_vec();
    v.push(op);
    v.extend_from_slice(&id.to_le_bytes());
    v.extend_from_slice(rest);
    v
}

fn create_body(codec: &str, codec_data: &[u8]) -> Vec<u8> {
    let mut v = vec![codec.len() as u8];
    v.extend_from_slice(codec.as_bytes());
    v.extend_from_slice(codec_data);
    v
}

fn listen_body(plane_id: u32, cluster: bool, key: u8) -> Vec<u8> {
    let mut v = plane_id.to_le_bytes().to_vec();
    v.push(u8::from(cluster));
    v.extend_from_slice(&[key; 32]);
    v
}

fn gamma_body(v: [f64; 5]) -> Vec<u8> {
    v.iter().flat_map(|d| d.to_le_bytes()).collect()
}

fn nal(kind: u8, mark: u8) -> Vec<u8> {
    let mut v = 2u32.to_be_bytes().to_vec();
    v.push(kind);
    v.push(mark);
    v
}

fn fed_audio_body(fed: bool) -> Vec<u8> {
    let mut v = vec![3u8, 0];
    v.extend_from_slice(&48_000u32.to_le_bytes());
    v.push(2);
    v.extend_from_slice(&0u32.to_le_bytes());
    v.push(if fed { 2 } else { 0 });
    v.extend_from_slice(&[0u8; 32]);
    v
}

fn audio_body(codec: u8, realtime: bool, device: &str) -> Vec<u8> {
    let mut v = vec![codec, 96];
    v.extend_from_slice(&44100u32.to_le_bytes());
    v.push(2);
    v.extend_from_slice(&1000u32.to_le_bytes());
    v.push(u8::from(realtime));
    v.extend_from_slice(&[5u8; 32]);
    v.extend_from_slice(device.as_bytes());
    v
}

fn fed_body() -> Vec<u8> {
    let mut v = audio_body(3, false, "");
    v[11] |= 2;
    v
}

fn mic_body(codec: u8, phone: &str, device: &str) -> Vec<u8> {
    let mut v = vec![codec, 97];
    v.extend_from_slice(&24000u32.to_le_bytes());
    v.push(1);
    v.extend_from_slice(&48000u32.to_le_bytes());
    v.extend_from_slice(&20u32.to_le_bytes());
    v.extend_from_slice(&5010u16.to_le_bytes());
    v.extend_from_slice(&[7u8; 32]);
    v.push(phone.len() as u8);
    v.extend_from_slice(phone.as_bytes());
    v.extend_from_slice(device.as_bytes());
    v
}

fn tap_body(rate: u32, channels: u8, device: &str, path: &str) -> Vec<u8> {
    let mut b = rate.to_le_bytes().to_vec();
    b.push(channels);
    b.push(device.len() as u8);
    b.extend_from_slice(device.as_bytes());
    b.extend_from_slice(path.as_bytes());
    b
}

#[test]
fn the_feed_statistics_name_the_stream_and_start_over_when_read() {
    let mut f = Fixture::new();
    f.send(OP_CREATE, MAIN_PLANE, &create_body("h264", &[]));
    f.open_feed("/tmp/x.feed");
    f.feed_in(RecordKind::VideoStart, MAIN_PLANE, &[0]);
    f.feed_in(RecordKind::Video, MAIN_PLANE, &nal(DELTA, 1));
    let first = f.take_stats();
    assert_eq!(
        first,
        vec!["[feed] recv 0x7a000001: in=1 dropped=1 pushed=0 awaiting_kf=1 active=1".to_owned()]
    );
    assert!(f.take_stats().is_empty());
}

#[test]
fn opening_the_feed_answers_with_the_path() {
    let mut f = Fixture::new();
    f.open_feed("/tmp/x.feed");
    assert_eq!(f.sent, vec![(REPLY_FEED, 9, b"/tmp/x.feed".to_vec())]);
    assert_eq!(f.world.feed_paths, vec!["/tmp/x.feed".to_owned()]);
}

#[test]
fn a_feed_the_world_refuses_answers_empty() {
    let mut f = Fixture::new();
    f.world.refuse_feed = true;
    f.open_feed("/tmp/x.feed");
    assert_eq!(f.sent, vec![(REPLY_FEED, 9, vec![])]);
}

#[test]
fn a_feed_path_that_is_no_text_is_ignored() {
    let mut f = Fixture::new();
    f.send(OP_FEED_OPEN, 9, &[0xff, 0xfe]);
    assert!(f.sent.is_empty());
}

#[test]
fn fed_video_waits_for_a_keyframe_then_reaches_the_plane() {
    let mut f = Fixture::new();
    f.send(OP_CREATE, MAIN_PLANE, &create_body("h264", &[]));
    f.open_feed("/tmp/x.feed");
    f.feed_in(RecordKind::VideoStart, MAIN_PLANE, &[0]);
    f.feed_in(RecordKind::Video, MAIN_PLANE, &nal(DELTA, 1));
    f.feed_in(RecordKind::Video, MAIN_PLANE, &nal(KEYFRAME, 2));
    f.feed_in(RecordKind::Video, MAIN_PLANE, &nal(DELTA, 3));
    assert_eq!(f.world.planes[0].pushed, vec![nal(KEYFRAME, 2), nal(DELTA, 3)]);
}

#[test]
fn a_codec_the_gate_cannot_read_passes_everything() {
    let mut f = Fixture::new();
    f.send(OP_CREATE, MAIN_PLANE, &create_body("vp9", &[]));
    f.open_feed("/tmp/x.feed");
    f.feed_in(RecordKind::VideoStart, MAIN_PLANE, &[0xff]);
    f.feed_in(RecordKind::Video, MAIN_PLANE, &nal(DELTA, 1));
    assert_eq!(f.world.planes[0].pushed, vec![nal(DELTA, 1)]);
}

#[test]
fn the_cluster_id_fans_out_to_every_cluster_plane() {
    let mut f = Fixture::new();
    f.send(OP_CREATE, CLUSTER_A, &create_body("h264", &[]));
    f.send(OP_CREATE, CLUSTER_B, &create_body("h264", &[]));
    f.open_feed("/tmp/x.feed");
    f.feed_in(RecordKind::VideoStart, CLUSTER_RECV_ID, &[0]);
    f.feed_in(RecordKind::Video, CLUSTER_RECV_ID, &nal(KEYFRAME, 1));
    assert_eq!(f.world.planes[0].pushed, vec![nal(KEYFRAME, 1)]);
    assert_eq!(f.world.planes[1].pushed, vec![nal(KEYFRAME, 1)]);
}

#[test]
fn a_plane_created_late_is_primed_from_the_feed() {
    let mut f = Fixture::new();
    f.open_feed("/tmp/x.feed");
    f.feed_in(RecordKind::VideoStart, MAIN_PLANE, &[0]);
    f.feed_in(RecordKind::Video, MAIN_PLANE, &nal(KEYFRAME, 1));
    f.send(OP_CREATE, MAIN_PLANE, &create_body("h264", &[]));
    assert_eq!(f.world.planes[0].pushed, vec![nal(KEYFRAME, 1)]);
}

#[test]
fn a_receiver_made_active_holds_the_fed_stream_of_its_plane() {
    let mut f = Fixture::new();
    f.send(OP_CREATE, MAIN_PLANE, &create_body("h264", &[]));
    f.open_feed("/tmp/x.feed");
    f.feed_in(RecordKind::VideoStart, MAIN_PLANE, &[0]);
    f.feed_in(RecordKind::Video, MAIN_PLANE, &nal(KEYFRAME, 1));

    f.feeder(42, MAIN_PLANE, false);
    f.config(0, H264, &[1, 2]);
    f.feed_in(RecordKind::Video, MAIN_PLANE, &nal(KEYFRAME, 2));
    f.frame_in(0, &nal(KEYFRAME, 3));

    assert_eq!(f.world.planes[0].pushed, vec![nal(KEYFRAME, 1), nal(KEYFRAME, 3)]);
}

#[test]
fn a_fed_stream_made_active_holds_the_receivers_and_waits_for_a_keyframe() {
    let mut f = Fixture::new();
    f.send(OP_CREATE, MAIN_PLANE, &create_body("h264", &[]));
    f.feeder(42, MAIN_PLANE, false);
    f.config(0, H264, &[1, 2]);
    f.open_feed("/tmp/x.feed");
    f.feed_in(RecordKind::VideoStart, MAIN_PLANE, &[0]);
    f.feed_in(RecordKind::Video, MAIN_PLANE, &nal(KEYFRAME, 1));
    assert!(f.world.planes[0].pushed.is_empty());

    f.send(OP_SET_ACTIVE, MAIN_PLANE, &[1]);
    f.frame_in(0, &nal(KEYFRAME, 2));
    f.feed_in(RecordKind::Video, MAIN_PLANE, &nal(DELTA, 3));
    f.feed_in(RecordKind::Video, MAIN_PLANE, &nal(KEYFRAME, 4));

    assert_eq!(f.world.planes[0].pushed, vec![nal(KEYFRAME, 4)]);
}

#[test]
fn a_fed_stream_that_starts_later_takes_the_answer_given_before() {
    let mut f = Fixture::new();
    f.send(OP_CREATE, MAIN_PLANE, &create_body("h264", &[]));
    f.open_feed("/tmp/x.feed");
    f.send(OP_SET_ACTIVE, MAIN_PLANE, &[0]);
    f.feed_in(RecordKind::VideoStart, MAIN_PLANE, &[0]);
    f.feed_in(RecordKind::Video, MAIN_PLANE, &nal(KEYFRAME, 1));
    assert!(f.world.planes[0].pushed.is_empty());

    f.send(OP_SET_ACTIVE, MAIN_PLANE, &[1]);
    f.feed_in(RecordKind::Video, MAIN_PLANE, &nal(KEYFRAME, 2));
    assert_eq!(f.world.planes[0].pushed, vec![nal(KEYFRAME, 2)]);
}

#[test]
fn fed_audio_reaches_only_an_active_stream() {
    let mut f = Fixture::new();
    f.send(OP_AUDIO_OPEN, 77, &fed_audio_body(true));
    f.open_feed("/tmp/x.feed");
    f.feed_in(RecordKind::Audio, 77, &[1, 2]);
    assert!(f.world.speakers[0].pushed.is_empty());
    f.send(OP_AUDIO_ACTIVE, 77, &[1]);
    f.feed_in(RecordKind::Audio, 77, &[3, 4]);
    assert_eq!(f.world.speakers[0].pushed, vec![vec![3, 4]]);
}

#[test]
fn a_record_of_another_kind_is_ignored() {
    let mut f = Fixture::new();
    f.send(OP_CREATE, MAIN_PLANE, &create_body("h264", &[]));
    f.feed_in(RecordKind::Other, MAIN_PLANE, &nal(KEYFRAME, 1));
    assert!(f.world.planes[0].pushed.is_empty());
}

#[test]
fn a_create_message_starts_a_plane_and_data_reaches_it() {
    let mut f = Fixture::new();
    f.send(OP_CREATE, MAIN_PLANE, &create_body("h264", &[9, 9]));
    f.send(OP_DATA, MAIN_PLANE, &[1, 2, 3]);
    assert_eq!(f.world.codecs, vec![("h264".to_owned(), vec![9, 9])]);
    assert_eq!(f.world.planes[0].started, 1);
    assert_eq!(f.world.planes[0].pushed, vec![vec![1, 2, 3]]);
}

#[test]
fn creating_a_plane_twice_replaces_the_first() {
    let mut f = Fixture::new();
    f.send(OP_CREATE, MAIN_PLANE, &create_body("h264", &[]));
    f.send(OP_CREATE, MAIN_PLANE, &create_body("h265", &[]));
    f.send(OP_DATA, MAIN_PLANE, &[7]);
    assert_eq!(f.world.planes.len(), 2);
    assert!(f.world.planes[0].pushed.is_empty());
    assert_eq!(f.world.planes[1].pushed, vec![vec![7]]);
}

#[test]
fn a_stop_message_drops_the_plane() {
    let mut f = Fixture::new();
    f.send(OP_CREATE, MAIN_PLANE, &create_body("h264", &[]));
    f.send(OP_STOP, MAIN_PLANE, &[]);
    f.send(OP_DATA, MAIN_PLANE, &[7]);
    assert!(f.world.planes[0].pushed.is_empty());
}

#[test]
fn a_create_message_shorter_than_its_codec_name_is_ignored() {
    let mut f = Fixture::new();
    f.send(OP_CREATE, MAIN_PLANE, &[8, b'h']);
    assert_eq!(f.world.planes.len(), 0);
}

#[test]
fn a_plane_that_cannot_be_built_leaves_nothing_behind() {
    let mut f = Fixture::new();
    f.world.refuse_plane = true;
    f.send(OP_CREATE, MAIN_PLANE, &create_body("h264", &[]));
    f.send(OP_DATA, MAIN_PLANE, &[7]);
    assert_eq!(f.world.planes.len(), 0);
}

#[test]
fn gamma_reaches_the_plane() {
    let mut f = Fixture::new();
    f.send(OP_CREATE, MAIN_PLANE, &create_body("h264", &[]));
    f.send(OP_GAMMA, MAIN_PLANE, &gamma_body([1.5, 2.0, 0.5, 0.6, 0.7]));
    assert_eq!(f.world.planes[0].gamma, Some([1.5, 2.0, 0.5, 0.6, 0.7]));
}

#[test]
fn a_gamma_message_short_of_five_values_is_ignored() {
    let mut f = Fixture::new();
    f.send(OP_CREATE, MAIN_PLANE, &create_body("h264", &[]));
    f.send(OP_GAMMA, MAIN_PLANE, &gamma_body([1.5, 2.0, 0.5, 0.6, 0.7])[..39]);
    assert_eq!(f.world.planes[0].gamma, None);
}

#[test]
fn an_unknown_opcode_is_ignored() {
    let mut f = Fixture::new();
    f.send(9, MAIN_PLANE, &[1, 2, 3]);
    assert_eq!(f.world.planes.len(), 0);
    assert!(f.sent.is_empty());
}

#[test]
fn two_messages_in_one_chunk_are_both_acted_on() {
    let mut f = Fixture::new();
    let mut chunk = frame(OP_CREATE, MAIN_PLANE, &create_body("h264", &[]));
    chunk.extend(frame(OP_DATA, MAIN_PLANE, &[4]));
    f.feed(&chunk);
    assert_eq!(f.world.planes[0].pushed, vec![vec![4]]);
}

#[test]
fn a_message_split_across_chunks_waits_for_the_rest() {
    let mut f = Fixture::new();
    let msg = frame(OP_CREATE, MAIN_PLANE, &create_body("h264", &[]));
    f.feed(&msg[..6]);
    assert_eq!(f.world.planes.len(), 0);
    f.feed(&msg[6..]);
    assert_eq!(f.world.planes.len(), 1);
}

#[test]
fn a_frame_too_short_for_a_message_is_passed_over() {
    let mut f = Fixture::new();
    let mut chunk = 2u32.to_le_bytes().to_vec();
    chunk.extend([1, 2]);
    chunk.extend(frame(OP_CREATE, MAIN_PLANE, &create_body("h264", &[])));
    f.feed(&chunk);
    assert_eq!(f.world.planes.len(), 1);
}

#[test]
fn listening_answers_with_the_port_and_takes_the_key() {
    let mut f = Fixture::new();
    f.send(OP_LISTEN, 42, &listen_body(MAIN_PLANE, false, 3));
    assert_eq!(f.sent, vec![(REPLY_PORT, 42, 5555u16.to_le_bytes().to_vec())]);
    assert_eq!(f.world.keys, vec![vec![3u8; 32]]);
}

#[test]
fn a_listen_message_short_of_the_key_opens_nothing() {
    let mut f = Fixture::new();
    f.send(OP_LISTEN, 42, &listen_body(MAIN_PLANE, false, 3)[..36]);
    assert!(f.sent.is_empty());
    assert!(f.world.sinks.is_empty());
}

#[test]
fn a_receiver_that_cannot_listen_is_not_announced() {
    let mut f = Fixture::new();
    f.world.deaf = true;
    f.send(OP_LISTEN, 42, &listen_body(MAIN_PLANE, false, 3));
    assert!(f.sent.is_empty());
}

#[test]
fn frames_reach_the_plane_the_receiver_serves() {
    let mut f = Fixture::new();
    f.feeder(42, MAIN_PLANE, false);
    f.send(OP_CREATE, MAIN_PLANE, &create_body("h264", &[]));
    f.config(0, H264, &[1, 2]);
    f.frame_in(0, &nal(KEYFRAME, 1));
    f.frame_in(0, &nal(DELTA, 2));
    assert_eq!(f.world.planes[0].pushed, vec![nal(KEYFRAME, 1), nal(DELTA, 2)]);
}

#[test]
fn frames_before_a_keyframe_are_dropped() {
    let mut f = Fixture::new();
    f.feeder(42, MAIN_PLANE, false);
    f.send(OP_CREATE, MAIN_PLANE, &create_body("h264", &[]));
    f.config(0, H264, &[1, 2]);
    f.frame_in(0, &nal(DELTA, 1));
    assert!(f.world.planes[0].pushed.is_empty());
}

#[test]
fn a_passive_receiver_feeds_nothing() {
    let mut f = Fixture::new();
    f.send(OP_LISTEN, 42, &listen_body(MAIN_PLANE, false, 1));
    f.send(OP_CREATE, MAIN_PLANE, &create_body("h264", &[]));
    f.config(0, H264, &[1, 2]);
    f.frame_in(0, &nal(KEYFRAME, 1));
    assert!(f.world.planes[0].pushed.is_empty());
}

#[test]
fn a_cluster_receiver_feeds_every_cluster_plane() {
    let mut f = Fixture::new();
    f.feeder(CLUSTER_RECV_ID, CLUSTER_RECV_ID, true);
    f.send(OP_CREATE, CLUSTER_PLANE_MIN, &create_body("h264", &[]));
    f.send(OP_CREATE, CLUSTER_PLANE_MAX, &create_body("h264", &[]));
    f.config(0, H264, &[1, 2]);
    f.frame_in(0, &nal(KEYFRAME, 1));
    assert_eq!(f.world.planes[0].pushed, vec![nal(KEYFRAME, 1)]);
    assert_eq!(f.world.planes[1].pushed, vec![nal(KEYFRAME, 1)]);
}

#[test]
fn a_plane_created_mid_stream_is_primed_with_the_cached_gop() {
    let mut f = Fixture::new();
    f.feeder(42, MAIN_PLANE, false);
    f.config(0, H264, &[1, 2]);
    f.frame_in(0, &nal(KEYFRAME, 1));
    f.frame_in(0, &nal(DELTA, 2));
    f.send(OP_CREATE, MAIN_PLANE, &create_body("h264", &[]));
    assert_eq!(f.world.planes[0].pushed, vec![nal(KEYFRAME, 1), nal(DELTA, 2)]);
}

#[test]
fn a_cluster_plane_is_primed_from_the_cluster_receiver() {
    let mut f = Fixture::new();
    f.feeder(CLUSTER_RECV_ID, CLUSTER_RECV_ID, true);
    f.config(0, H264, &[1, 2]);
    f.frame_in(0, &nal(KEYFRAME, 1));
    f.send(OP_CREATE, CLUSTER_PLANE_MIN, &create_body("h264", &[]));
    assert_eq!(f.world.planes[0].pushed, vec![nal(KEYFRAME, 1)]);
}

#[test]
fn a_torn_down_receiver_no_longer_primes_new_planes() {
    let mut f = Fixture::new();
    f.feeder(42, MAIN_PLANE, false);
    f.config(0, H264, &[1, 2]);
    f.frame_in(0, &nal(KEYFRAME, 1));
    f.send(OP_TEARDOWN, 42, &[]);
    f.send(OP_CREATE, MAIN_PLANE, &create_body("h264", &[]));
    assert!(f.world.planes[0].pushed.is_empty());
}

#[test]
fn activating_a_receiver_makes_the_other_one_of_the_plane_passive() {
    let mut f = Fixture::new();
    f.feeder(42, MAIN_PLANE, false);
    f.send(OP_CREATE, MAIN_PLANE, &create_body("h264", &[]));
    f.config(0, H264, &[1, 2]);
    f.feeder(43, MAIN_PLANE, false);
    f.config(1, H264, &[1, 2]);
    f.frame_in(0, &nal(KEYFRAME, 1));
    f.frame_in(1, &nal(KEYFRAME, 2));
    assert_eq!(f.world.planes[0].pushed, vec![nal(KEYFRAME, 2)]);
}

#[test]
fn a_receiver_made_active_waits_for_the_next_keyframe() {
    let mut f = Fixture::new();
    f.send(OP_LISTEN, 42, &listen_body(MAIN_PLANE, false, 1));
    f.send(OP_CREATE, MAIN_PLANE, &create_body("h264", &[]));
    f.config(0, H264, &[1, 2]);
    f.frame_in(0, &nal(KEYFRAME, 1));
    f.frame_in(0, &nal(DELTA, 2));
    assert!(f.world.planes[0].pushed.is_empty());

    f.send(OP_SET_ACTIVE, 42, &[1]);
    assert!(f.world.planes[0].pushed.is_empty());
    f.frame_in(0, &nal(DELTA, 3));
    assert!(f.world.planes[0].pushed.is_empty());
    f.frame_in(0, &nal(KEYFRAME, 4));
    assert_eq!(f.world.planes[0].pushed, vec![nal(KEYFRAME, 4)]);
}

#[test]
fn a_receiver_of_another_plane_stays_active() {
    let mut f = Fixture::new();
    f.feeder(42, MAIN_PLANE, false);
    f.send(OP_CREATE, MAIN_PLANE, &create_body("h264", &[]));
    f.config(0, H264, &[1, 2]);
    f.feeder(43, CLUSTER_RECV_ID, true);
    f.frame_in(0, &nal(KEYFRAME, 1));
    assert_eq!(f.world.planes[0].pushed, vec![nal(KEYFRAME, 1)]);
}

#[test]
fn deactivating_a_receiver_stops_its_feed() {
    let mut f = Fixture::new();
    f.feeder(42, MAIN_PLANE, false);
    f.send(OP_CREATE, MAIN_PLANE, &create_body("h264", &[]));
    f.config(0, H264, &[1, 2]);
    f.send(OP_SET_ACTIVE, 42, &[0]);
    f.frame_in(0, &nal(KEYFRAME, 1));
    assert!(f.world.planes[0].pushed.is_empty());
}

#[test]
fn setting_a_receiver_that_does_not_exist_does_nothing() {
    let mut f = Fixture::new();
    f.send(OP_SET_ACTIVE, 42, &[1]);
    assert!(f.sent.is_empty());
}

#[test]
fn a_configuration_is_forwarded_while_the_receiver_is_active() {
    let mut f = Fixture::new();
    f.feeder(42, MAIN_PLANE, false);
    f.config(0, H265, &[1, 2]);
    assert_eq!(f.sent.last(), Some(&(REPLY_CONFIG, MAIN_PLANE, vec![H265, 1, 2])));
}

#[test]
fn activating_a_receiver_forwards_the_configuration_it_already_had() {
    let mut f = Fixture::new();
    f.send(OP_LISTEN, 42, &listen_body(MAIN_PLANE, false, 1));
    f.config(0, H264, &[7, 8]);
    f.send(OP_SET_ACTIVE, 42, &[1]);
    assert_eq!(f.sent.last(), Some(&(REPLY_CONFIG, MAIN_PLANE, vec![H264, 7, 8])));
}

#[test]
fn activating_a_receiver_without_a_configuration_forwards_nothing() {
    let mut f = Fixture::new();
    f.send(OP_LISTEN, 42, &listen_body(MAIN_PLANE, false, 1));
    f.send(OP_SET_ACTIVE, 42, &[1]);
    assert_eq!(f.sent.len(), 1);
}

#[test]
fn a_keepalive_configuration_keeps_the_last_record() {
    let mut f = Fixture::new();
    f.feeder(42, MAIN_PLANE, false);
    f.config(0, H264, &[7, 8]);
    f.config(0, H264, &[]);
    f.send(OP_SET_ACTIVE, 42, &[1]);
    assert_eq!(f.sent.last(), Some(&(REPLY_CONFIG, MAIN_PLANE, vec![H264, 7, 8])));
}

#[test]
fn the_start_of_a_stream_is_reported_while_the_receiver_is_active() {
    let mut f = Fixture::new();
    f.feeder(42, MAIN_PLANE, false);
    f.started_in(0);
    assert_eq!(f.sent.last(), Some(&(REPLY_STARTED, MAIN_PLANE, vec![])));
}

#[test]
fn a_passive_receiver_reports_no_start() {
    let mut f = Fixture::new();
    f.send(OP_LISTEN, 42, &listen_body(MAIN_PLANE, false, 1));
    f.started_in(0);
    assert_eq!(f.sent.len(), 1);
}

#[test]
fn opening_an_audio_stream_answers_with_both_ports_and_takes_the_key() {
    let mut f = Fixture::new();
    f.send(OP_AUDIO_OPEN, MUSIC, &audio_body(0, false, ""));
    let mut ports = 6000u16.to_le_bytes().to_vec();
    ports.extend_from_slice(&6001u16.to_le_bytes());
    assert_eq!(f.sent, vec![(REPLY_AUDIO_PORTS, MUSIC, ports)]);
    assert_eq!(f.world.audio_keys, vec![vec![5u8; 32]]);
}

#[test]
fn the_stream_settings_reach_the_pipeline() {
    let mut f = Fixture::new();
    f.send(OP_AUDIO_OPEN, MUSIC, &audio_body(1, true, "alsa_output.front"));
    assert_eq!(
        f.world.audio_cfgs,
        vec![(AudioCodec::Opus, 96, 44100, 2, 1000, true, Some("alsa_output.front".to_owned()))]
    );
}

#[test]
fn the_codec_byte_picks_the_pipeline() {
    for (byte, expected) in [(0u8, AudioCodec::AacLc), (1, AudioCodec::Opus), (2, AudioCodec::Lpcm)] {
        let mut f = Fixture::new();
        f.send(OP_AUDIO_OPEN, MUSIC, &audio_body(byte, false, ""));
        assert_eq!(f.world.audio_cfgs[0].0, expected);
    }
}

#[test]
fn an_audio_message_short_of_the_key_opens_nothing() {
    let mut f = Fixture::new();
    f.send(OP_AUDIO_OPEN, MUSIC, &audio_body(0, false, "")[..43]);
    assert!(f.sent.is_empty());
    assert!(f.world.speakers.is_empty());
}

#[test]
fn a_pipeline_that_cannot_be_built_opens_nothing() {
    let mut f = Fixture::new();
    f.world.refuse_speaker = true;
    f.send(OP_AUDIO_OPEN, MUSIC, &audio_body(0, false, ""));
    assert!(f.sent.is_empty());
}

#[test]
fn a_stream_that_cannot_listen_is_not_announced() {
    let mut f = Fixture::new();
    f.world.audio_deaf = true;
    f.send(OP_AUDIO_OPEN, MUSIC, &audio_body(0, false, ""));
    assert!(f.sent.is_empty());
}

#[test]
fn packets_reach_the_pipeline_and_the_start_is_reported() {
    let mut f = Fixture::new();
    f.send(OP_AUDIO_OPEN, MUSIC, &audio_body(0, false, ""));
    f.send(OP_AUDIO_ACTIVE, MUSIC, &[1]);
    let r = f.host.on_audio_started(f.world.audio_sinks[0], 4242);
    f.say(r);
    f.rtp_in(0, &[1, 2, 3]);
    assert_eq!(f.world.speakers[0].pushed, vec![vec![1, 2, 3]]);
    assert_eq!(f.sent.last(), Some(&(REPLY_AUDIO_STARTED, MUSIC, 4242u32.to_le_bytes().to_vec())));
}

#[test]
fn a_stream_stays_silent_until_it_is_made_active() {
    let mut f = Fixture::new();
    f.send(OP_AUDIO_OPEN, MUSIC, &audio_body(0, false, ""));
    f.rtp_in(0, &[1, 2, 3]);
    assert!(f.world.speakers[0].pushed.is_empty());
}

#[test]
fn an_active_stream_reaches_the_pipeline_and_a_held_one_stops_again() {
    let mut f = Fixture::new();
    f.send(OP_AUDIO_OPEN, MUSIC, &audio_body(0, false, ""));
    f.send(OP_AUDIO_ACTIVE, MUSIC, &[1]);
    f.rtp_in(0, &[1]);
    f.send(OP_AUDIO_ACTIVE, MUSIC, &[0]);
    f.rtp_in(0, &[2]);
    assert_eq!(f.world.speakers[0].pushed, vec![vec![1]]);
}

#[test]
fn a_fed_stream_binds_no_ports_and_still_answers() {
    let mut f = Fixture::new();
    f.send(OP_AUDIO_OPEN, MUSIC, &fed_body());
    assert!(f.world.audio_sinks.is_empty());
    assert_eq!(f.sent, vec![(REPLY_AUDIO_PORTS, MUSIC, vec![0, 0, 0, 0])]);
}

#[test]
fn samples_handed_over_reach_the_pipeline_once_the_stream_is_active() {
    let mut f = Fixture::new();
    f.send(OP_AUDIO_OPEN, MUSIC, &fed_body());
    f.send(OP_AUDIO_DATA, MUSIC, &[1, 2]);
    f.send(OP_AUDIO_ACTIVE, MUSIC, &[1]);
    f.send(OP_AUDIO_DATA, MUSIC, &[3, 4]);
    assert_eq!(f.world.speakers[0].pushed, vec![vec![3, 4]]);
}

#[test]
fn the_volume_reaches_the_pipeline() {
    let mut f = Fixture::new();
    f.send(OP_AUDIO_OPEN, MUSIC, &audio_body(0, false, ""));
    f.send(OP_AUDIO_VOLUME, MUSIC, &0.25f64.to_le_bytes());
    assert_eq!(f.world.speakers[0].volume, Some(0.25));
}

#[test]
fn a_volume_message_can_carry_a_ramp() {
    let mut f = Fixture::new();
    f.send(OP_AUDIO_OPEN, MUSIC, &audio_body(0, false, ""));
    let mut body = 0.5f64.to_le_bytes().to_vec();
    body.extend_from_slice(&250u32.to_le_bytes());
    f.send(OP_AUDIO_VOLUME, MUSIC, &body);
    assert_eq!(f.world.speakers[0].volume, Some(0.5));
    assert_eq!(f.world.speakers[0].ramp_ms, Some(250));
}

#[test]
fn a_volume_message_short_of_a_value_is_ignored() {
    let mut f = Fixture::new();
    f.send(OP_AUDIO_OPEN, MUSIC, &audio_body(0, false, ""));
    f.send(OP_AUDIO_VOLUME, MUSIC, &0.25f64.to_le_bytes()[..7]);
    assert_eq!(f.world.speakers[0].volume, None);
}

#[test]
fn stopping_an_audio_stream_drops_it() {
    let mut f = Fixture::new();
    f.send(OP_AUDIO_OPEN, MUSIC, &audio_body(0, false, ""));
    f.send(OP_AUDIO_STOP, MUSIC, &[]);
    f.send(OP_AUDIO_VOLUME, MUSIC, &0.5f64.to_le_bytes());
    assert_eq!(f.world.speakers[0].volume, None);
}

#[test]
fn enabling_the_visualizer_turns_the_tap_on_for_every_stream() {
    let mut f = Fixture::new();
    f.send(OP_AUDIO_OPEN, MUSIC, &audio_body(0, false, ""));
    f.send(OP_AUDIO_OPEN, MUSIC + 1, &audio_body(0, false, ""));
    f.send(OP_VISUALIZER, 0, &[1]);
    assert_eq!(f.world.speakers[0].visualizer_on, Some(true));
    assert_eq!(f.world.speakers[1].visualizer_on, Some(true));
}

#[test]
fn a_stream_opened_while_the_visualizer_is_on_taps_at_once() {
    let mut f = Fixture::new();
    f.send(OP_VISUALIZER, 0, &[1]);
    f.send(OP_AUDIO_OPEN, MUSIC, &audio_body(0, false, ""));
    assert_eq!(f.world.speakers[0].visualizer_on, Some(true));
}

#[test]
fn pump_sends_each_stream_its_samples_with_rate_and_channels_while_on() {
    let mut f = Fixture::new();
    f.send(OP_AUDIO_OPEN, MUSIC, &audio_body(0, false, ""));
    f.send(OP_VISUALIZER, 0, &[1]);
    f.world.speakers[0].visualizer.extend_from_slice(&[5, 6]);
    f.pump_visualizer();
    let mut want = 48000u32.to_le_bytes().to_vec();
    want.extend_from_slice(&[5, 6]);
    assert_eq!(f.sent.last(), Some(&(REPLY_VISUALIZER, MUSIC, want)));
}

#[test]
fn pump_stays_silent_while_the_visualizer_is_off() {
    let mut f = Fixture::new();
    f.send(OP_AUDIO_OPEN, MUSIC, &audio_body(0, false, ""));
    f.world.speakers[0].visualizer.extend_from_slice(&[1, 2]);
    f.pump_visualizer();
    assert!(f.sent.iter().all(|(op, _, _)| *op != REPLY_VISUALIZER));
}

#[test]
fn a_stream_with_no_samples_says_nothing_on_pump() {
    let mut f = Fixture::new();
    f.send(OP_AUDIO_OPEN, MUSIC, &audio_body(0, false, ""));
    f.send(OP_VISUALIZER, 0, &[1]);
    f.pump_visualizer();
    assert!(f.sent.iter().all(|(op, _, _)| *op != REPLY_VISUALIZER));
}

#[test]
fn opening_the_microphone_carries_the_settings_and_the_phone_address() {
    let mut f = Fixture::new();
    f.send(OP_MIC_OPEN, MIC, &mic_body(0, "fe80::1", "hw:0"));
    assert_eq!(
        f.world.uplinks,
        vec![(97, 24000, 1, 48000, 20, 5010, "fe80::1".to_owned(), Some("hw:0".to_owned()))]
    );
}

#[test]
fn a_microphone_message_short_of_its_address_opens_nothing() {
    let mut f = Fixture::new();
    f.send(OP_MIC_OPEN, MIC, &mic_body(0, "fe80::1", "")[..52]);
    assert!(f.world.uplinks.is_empty());
}

#[test]
fn a_capture_chain_that_cannot_be_built_opens_nothing() {
    let mut f = Fixture::new();
    f.world.refuse_uplink = true;
    f.send(OP_MIC_OPEN, MIC, &mic_body(0, "fe80::1", ""));
    assert!(f.world.uplinks.is_empty());
}

#[test]
fn stopping_the_microphone_drops_the_capture() {
    let mut f = Fixture::new();
    f.send(OP_MIC_OPEN, MIC, &mic_body(0, "fe80::1", ""));
    f.send(OP_MIC_STOP, MIC, &[]);
    assert_eq!(f.world.uplinks_dropped, 1);
}

#[test]
fn the_statistics_name_the_plane_and_start_over_when_read() {
    let mut f = Fixture::new();
    f.feeder(42, MAIN_PLANE, false);
    f.config(0, H264, &[1, 2]);
    f.frame_in(0, &nal(DELTA, 1));
    let first = f.take_stats();
    assert_eq!(first.len(), 1);
    assert!(first[0].contains("recv 0x7a000001: in=1 dropped=1 pushed=0"));
    assert!(first[0].ends_with("awaiting_kf=1 active=1"));
    assert!(f.take_stats().is_empty());
}

#[test]
fn a_tap_message_opens_a_capture_to_the_path_and_stop_drops_it() {
    let mut f = Fixture::new();
    f.send(OP_TAP_OPEN, 0x7c01, &tap_body(16000, 1, "mic0", "/tmp/aa.mic"));
    assert_eq!(f.world.taps, vec![(16000, 1, Some("mic0".to_owned()), "/tmp/aa.mic".to_owned())]);
    f.send(OP_TAP_STOP, 0x7c01, &[]);
    assert_eq!(f.world.taps_dropped, 1);
}

#[test]
fn a_tap_message_short_of_its_device_opens_nothing() {
    let mut f = Fixture::new();
    f.send(OP_TAP_OPEN, 0x7c01, &[0, 0, 0, 0, 1, 9]);
    assert!(f.world.taps.is_empty());
}

#[test]
fn a_device_name_that_is_no_text_is_left_out_and_a_codec_name_is_mended() {
    let mut f = Fixture::new();
    let mut body = audio_body(0, false, "");
    body.push(0xff);
    f.send(OP_AUDIO_OPEN, MUSIC, &body);
    assert_eq!(f.world.audio_cfgs[0].6, None);
    f.send(OP_CREATE, MAIN_PLANE, &[1, 0xff, 7]);
    assert_eq!(f.world.codecs, vec![("\u{fffd}".to_owned(), vec![7])]);
}

#[test]
fn opening_audio_needs_a_pipeline_and_ports_unless_it_is_fed() {
    let mut host = Host::new(Cluster { receiver: 1, plane_min: 2, plane_max: 3 });
    assert!(host.audio_opened(7, false, true, None).is_none());
    assert!(host.audio_opened(7, true, false, Some((1, 2))).is_none());
    assert!(host.audio.is_empty());
    let (tap, reply) = host.audio_opened(7, true, true, Some((1, 2))).unwrap();
    assert_eq!((tap, reply.op, reply.id, reply.rest), (false, 4, 7, vec![0, 0, 0, 0]));
    let (_, reply) = host.audio_opened(8, false, true, Some((6000, 6001))).unwrap();
    assert_eq!(reply.rest, vec![0x70, 0x17, 0x71, 0x17]);
    assert!(!host.sounds(7) && !host.sounds(8));
}

#[test]
fn chunks_are_put_together() {
    let bytes = [7, 0, 0, 0, 3, 5, 0, 0, 0, 1, 2, 5, 0, 0, 0, 4, 6, 0, 0, 0];
    for cut in 0..=bytes.len() {
        let mut framer = Framer::new();
        let mut got = framer.feed(&bytes[..cut]);
        got.extend(framer.feed(&bytes[cut..]));
        let got: Vec<(u8, u32, Vec<u8>)> = got.into_iter().map(|m| (m.op, m.id, m.rest)).collect();
        assert_eq!(got, vec![(3, 5, vec![1, 2]), (4, 6, vec![])]);
        assert!(framer.buf.is_empty());
    }
}
