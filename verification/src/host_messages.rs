//! The messages the main process sends the video and audio host, and what each of them carries.

use vstd::prelude::*;
use vstd::utf8::{decode_utf8, encode_utf8, encode_utf8_decode_utf8, encode_utf8_valid_utf8, valid_utf8};

use crate::bytes::{append, copy_range, get_le16, get_le32, integers_read_back, le16, le32, u16_le, u32_le};
use crate::text::{lossy, utf8, utf8_lossy};

verus! {

pub const OP_CREATE: u8 = 1;
pub const OP_DATA: u8 = 2;
pub const OP_STOP: u8 = 3;
pub const OP_GAMMA: u8 = 4;
pub const OP_LISTEN: u8 = 5;
pub const OP_TEARDOWN: u8 = 6;
pub const OP_SET_ACTIVE: u8 = 7;
pub const OP_AUDIO_OPEN: u8 = 8;
pub const OP_AUDIO_VOLUME: u8 = 9;
pub const OP_AUDIO_STOP: u8 = 10;
pub const OP_MIC_OPEN: u8 = 11;
pub const OP_MIC_STOP: u8 = 12;
pub const OP_AUDIO_ACTIVE: u8 = 13;
pub const OP_AUDIO_DATA: u8 = 14;
pub const OP_VISUALIZER: u8 = 15;
pub const OP_FEED_OPEN: u8 = 16;
pub const OP_TAP_OPEN: u8 = 20;
pub const OP_TAP_STOP: u8 = 21;

pub const REPLY_PORT: u8 = 1;
pub const REPLY_CONFIG: u8 = 2;
pub const REPLY_STARTED: u8 = 3;
pub const REPLY_AUDIO_PORTS: u8 = 4;
pub const REPLY_AUDIO_STARTED: u8 = 5;
pub const REPLY_VISUALIZER: u8 = 6;
pub const REPLY_FEED: u8 = 7;

/// The longest codec name a plane is created with.
pub const CODEC_MAX: usize = 15;
/// The fixed part of the message that opens an audio stream.
pub const AUDIO_FIXED: usize = 44;
/// The fixed part of the message that opens a microphone.
pub const MIC_FIXED: usize = 50;
/// The fixed part of the message that opens a microphone tap.
pub const TAP_FIXED: usize = 6;
/// Plane, flags and key of the message that opens a receiver.
pub const LISTEN_FIXED: usize = 37;

/// How an audio stream is coded.
#[derive(Clone, Copy, PartialEq, Eq, Structural, Debug)]
pub enum AudioCodec {
    AacLc,
    Opus,
    Lpcm,
    PcmLe,
}

/// How the microphone stream is coded.
#[derive(Clone, Copy, PartialEq, Eq, Structural, Debug)]
pub enum UplinkCodec {
    Opus,
    Pcm,
}

/// What one audio stream is set up with.
pub struct AudioConfig {
    pub codec: AudioCodec,
    pub payload_type: u8,
    pub clock_rate: u32,
    pub channels: u8,
    pub latency_ms: u32,
    pub realtime: bool,
    pub device: Option<String>,
    pub key: Vec<u8>,
}

/// What the microphone stream is set up with.
pub struct UplinkConfig {
    pub codec: UplinkCodec,
    pub payload_type: u8,
    pub sample_rate: u32,
    pub channels: u8,
    pub bitrate: u32,
    pub frame_ms: u32,
    pub port: u16,
    pub key: Vec<u8>,
    pub phone: String,
    pub device: Option<String>,
}

/// A microphone tap: raw samples of this format go to whoever listens on the path.
pub struct TapConfig {
    pub sample_rate: u32,
    pub channels: u8,
    pub device: Option<String>,
    pub path: String,
}

/// Where replies go: the socket in the process, a collector elsewhere.
pub trait Wire: Send + Sync {
    fn reply(&self, op: u8, id: u32, rest: &[u8]);
}

/// A reply to the main process.
pub struct Reply {
    pub op: u8,
    pub id: u32,
    pub rest: Vec<u8>,
}

/// A reply to the main process.
pub struct ReplySpec {
    pub op: u8,
    pub id: u32,
    pub rest: Seq<u8>,
}

impl View for Reply {
    type V = ReplySpec;

    open spec fn view(&self) -> ReplySpec {
        ReplySpec { op: self.op, id: self.id, rest: self.rest@ }
    }
}

/// The ids of the instrument cluster: the receiver that serves it, and the planes it has.
#[derive(Clone, Copy)]
pub struct Cluster {
    pub receiver: u32,
    pub plane_min: u32,
    pub plane_max: u32,
}

/// Who feeds a plane: the cluster receiver where it is a cluster plane, else the plane's own id.
pub open spec fn feeder(cluster: Cluster, id: u32) -> u32 {
    if cluster.plane_min <= id <= cluster.plane_max { cluster.receiver } else { id }
}

/// Who feeds a plane.
pub fn feeder_of(cluster: &Cluster, id: u32) -> (r: u32)
    ensures
        r == feeder(*cluster, id),
{
    if cluster.plane_min <= id && id <= cluster.plane_max { cluster.receiver } else { id }
}

/// Codec name and codec data of the message that creates a plane.
pub open spec fn create_of(rest: Seq<u8>) -> Option<(Seq<char>, Seq<u8>)> {
    if rest.len() == 0 {
        None
    } else {
        let clen = if rest[0] < CODEC_MAX { rest[0] as int } else { CODEC_MAX as int };
        if rest.len() < 1 + clen {
            None
        } else {
            Some((lossy(rest.subrange(1, 1 + clen)), rest.skip(1 + clen)))
        }
    }
}

/// `[1B codecLen][codec ascii][codec_data]`
pub fn read_create(rest: &[u8]) -> (r: Option<(String, Vec<u8>)>)
    ensures
        match r {
            Some((codec, data)) => {
                let name = rest@.subrange(1, rest@.len() - data@.len());
                &&& create_of(rest@) == Some((codec@, data@))
                &&& data@.len() < rest@.len()
                &&& valid_utf8(name) ==> encode_utf8(codec@) == name
            },
            None => create_of(rest@) is None,
        },
{
    if rest.len() == 0 {
        return None;
    }
    let clen: usize = if (rest[0] as usize) < CODEC_MAX { rest[0] as usize } else { CODEC_MAX };
    if rest.len() < 1 + clen {
        return None;
    }
    let name = copy_range(rest, 1, 1 + clen);
    let data = copy_range(rest, 1 + clen, rest.len());
    assert(data@ =~= rest@.skip(1 + clen as int));
    Some((utf8_lossy(&name), data))
}

/// The name of a device, where the bytes hold one.
pub open spec fn device_of(b: Seq<u8>) -> Option<Seq<char>> {
    if b.len() > 0 && valid_utf8(b) { Some(decode_utf8(b)) } else { None }
}

/// Whether an optional text is what was expected of it.
pub open spec fn says(r: Option<String>, want: Option<Seq<char>>) -> bool {
    match (r, want) {
        (Some(a), Some(b)) => a@ == b,
        (None, None) => true,
        _ => false,
    }
}

fn read_device(b: &[u8]) -> (r: Option<String>)
    ensures
        says(r, device_of(b@)),
{
    if b.len() == 0 {
        return None;
    }
    match utf8(b) {
        Some(s) => {
            proof {
                encode_utf8_decode_utf8(s@);
            }
            Some(s)
        },
        None => None,
    }
}

/// The codec a byte names.
pub open spec fn audio_codec(b: u8) -> AudioCodec {
    if b == 1 {
        AudioCodec::Opus
    } else if b == 2 {
        AudioCodec::Lpcm
    } else if b == 3 {
        AudioCodec::PcmLe
    } else {
        AudioCodec::AacLc
    }
}

/// Whether a configuration is the one a message carries.
pub open spec fn is_audio(c: AudioConfig, rest: Seq<u8>) -> bool {
    &&& c.codec == audio_codec(rest[0])
    &&& c.payload_type == rest[1]
    &&& c.clock_rate == u32_le(rest, 2)
    &&& c.channels == rest[6]
    &&& c.latency_ms == u32_le(rest, 7)
    &&& c.realtime == (rest[11] % 2 == 1)
    &&& c.key@ == rest.subrange(12, 44)
    &&& says(c.device, device_of(rest.skip(AUDIO_FIXED as int)))
}

/// Whether the main process feeds the stream itself, so that no ports are bound.
pub open spec fn is_fed(rest: Seq<u8>) -> bool {
    rest[11] as int / 2 % 2 == 1
}

/// `[1B codec][1B payloadType][4B clockRate][1B channels][4B latencyMs][1B flags][32B key]
/// [device name]`
pub fn read_audio(rest: &[u8]) -> (r: Option<(AudioConfig, bool)>)
    ensures
        match r {
            Some((c, fed)) => rest@.len() >= AUDIO_FIXED && is_audio(c, rest@) && fed == is_fed(rest@),
            None => rest@.len() < AUDIO_FIXED,
        },
{
    if rest.len() < AUDIO_FIXED {
        return None;
    }
    let tail = copy_range(rest, AUDIO_FIXED, rest.len());
    assert(tail@ =~= rest@.skip(AUDIO_FIXED as int));
    let codec = match rest[0] {
        1 => AudioCodec::Opus,
        2 => AudioCodec::Lpcm,
        3 => AudioCodec::PcmLe,
        _ => AudioCodec::AacLc,
    };
    let c = AudioConfig {
        codec,
        payload_type: rest[1],
        clock_rate: get_le32(rest, 2),
        channels: rest[6],
        latency_ms: get_le32(rest, 7),
        realtime: rest[11] % 2 == 1,
        device: read_device(&tail),
        key: copy_range(rest, 12, 44),
    };
    Some((c, rest[11] / 2 % 2 == 1))
}

/// Whether a message that opens the microphone is complete.
pub open spec fn mic_complete(rest: Seq<u8>) -> bool {
    rest.len() >= MIC_FIXED && rest.len() >= MIC_FIXED + rest[MIC_FIXED - 1]
}

/// Whether a configuration is the one a message carries.
pub open spec fn is_uplink(c: UplinkConfig, rest: Seq<u8>) -> bool {
    let end = MIC_FIXED + rest[MIC_FIXED - 1];
    &&& c.codec == (if rest[0] == 1 { UplinkCodec::Pcm } else { UplinkCodec::Opus })
    &&& c.payload_type == rest[1]
    &&& c.sample_rate == u32_le(rest, 2)
    &&& c.channels == rest[6]
    &&& c.bitrate == u32_le(rest, 7)
    &&& c.frame_ms == u32_le(rest, 11)
    &&& c.port == u16_le(rest, 15)
    &&& c.key@ == rest.subrange(17, 49)
    &&& c.phone@ == lossy(rest.subrange(MIC_FIXED as int, end))
    &&& valid_utf8(rest.subrange(MIC_FIXED as int, end)) ==> encode_utf8(c.phone@) == rest.subrange(MIC_FIXED as int, end)
    &&& says(c.device, device_of(rest.skip(end)))
}

/// `[1B codec][1B payloadType][4B sampleRate][1B channels][4B bitrate][4B frameMs][2B port]
/// [32B key][1B phone length][phone][device]`
pub fn read_uplink(rest: &[u8]) -> (r: Option<UplinkConfig>)
    ensures
        match r {
            Some(c) => mic_complete(rest@) && is_uplink(c, rest@),
            None => !mic_complete(rest@),
        },
{
    if rest.len() < MIC_FIXED {
        return None;
    }
    let n: usize = rest[MIC_FIXED - 1] as usize;
    if rest.len() < MIC_FIXED + n {
        return None;
    }
    let phone = copy_range(rest, MIC_FIXED, MIC_FIXED + n);
    let device = copy_range(rest, MIC_FIXED + n, rest.len());
    assert(device@ =~= rest@.skip(MIC_FIXED + n as int));
    Some(UplinkConfig {
        codec: if rest[0] == 1 { UplinkCodec::Pcm } else { UplinkCodec::Opus },
        payload_type: rest[1],
        sample_rate: get_le32(rest, 2),
        channels: rest[6],
        bitrate: get_le32(rest, 7),
        frame_ms: get_le32(rest, 11),
        port: get_le16(rest, 15),
        key: copy_range(rest, 17, 49),
        phone: utf8_lossy(&phone),
        device: read_device(&device),
    })
}

/// Where the path starts in a message that opens a tap.
pub open spec fn tap_path_at(rest: Seq<u8>) -> int {
    TAP_FIXED + rest[TAP_FIXED - 1]
}

/// Whether a message that opens a tap is complete, with a readable path.
pub open spec fn tap_complete(rest: Seq<u8>) -> bool {
    rest.len() >= TAP_FIXED && rest.len() >= tap_path_at(rest) && valid_utf8(rest.skip(tap_path_at(rest)))
}

/// Whether a configuration is the one a message carries.
pub open spec fn is_tap(c: TapConfig, rest: Seq<u8>) -> bool {
    &&& c.sample_rate == u32_le(rest, 0)
    &&& c.channels == rest[4]
    &&& says(c.device, device_of(rest.subrange(TAP_FIXED as int, tap_path_at(rest))))
    &&& c.path@ == decode_utf8(rest.skip(tap_path_at(rest)))
}

/// `[rate u32][channels u8][device length u8][device][path]`
pub fn read_tap(rest: &[u8]) -> (r: Option<TapConfig>)
    ensures
        match r {
            Some(c) => tap_complete(rest@) && is_tap(c, rest@),
            None => !tap_complete(rest@),
        },
{
    if rest.len() < TAP_FIXED {
        return None;
    }
    let n: usize = rest[TAP_FIXED - 1] as usize;
    if rest.len() < TAP_FIXED + n {
        return None;
    }
    let device = copy_range(rest, TAP_FIXED, TAP_FIXED + n);
    let tail = copy_range(rest, TAP_FIXED + n, rest.len());
    assert(tail@ =~= rest@.skip(tap_path_at(rest@)));
    match utf8(&tail) {
        Some(path) => {
            proof {
                encode_utf8_decode_utf8(path@);
            }
            Some(TapConfig { sample_rate: get_le32(rest, 0), channels: rest[4], device: read_device(&device), path })
        },
        None => None,
    }
}

/// Eight bytes as a number, least significant first.
pub open spec fn word(s: Seq<u8>, i: int) -> u64 {
    (u32_le(s, i) + u32_le(s, i + 4) * 0x1_0000_0000) as u64
}

/// The bits of eight bytes, least significant first.
pub fn get_word(s: &[u8], i: usize) -> (v: u64)
    requires
        i + 8 <= s.len(),
    ensures
        v == word(s@, i as int),
{
    get_le32(s, i) as u64 + get_le32(s, i + 4) as u64 * 0x1_0000_0000
}

/// Level and ramp of a message that sets the volume: the bits of a double, then milliseconds, none
/// where they are left out.
pub open spec fn volume_of(rest: Seq<u8>) -> Option<(u64, u64)> {
    if rest.len() < 8 {
        None
    } else {
        Some((word(rest, 0), if rest.len() >= 12 { u32_le(rest, 8) as u64 } else { 0 }))
    }
}

/// Whether a flag message says yes.
pub open spec fn yes(rest: Seq<u8>) -> bool {
    rest.len() > 0 && rest[0] % 2 == 1
}

pub fn says_yes(rest: &[u8]) -> (r: bool)
    ensures
        r == yes(rest@),
{
    rest.len() > 0 && rest[0] % 2 == 1
}

/// How many bytes the opcode and the id of a message take.
pub const HEAD: usize = 5;

/// A message of the main process.
pub struct Message {
    pub op: u8,
    pub id: u32,
    pub rest: Vec<u8>,
}

/// What a message says.
pub struct MessageSpec {
    pub op: u8,
    pub id: u32,
    pub rest: Seq<u8>,
}

impl View for Message {
    type V = MessageSpec;

    open spec fn view(&self) -> MessageSpec {
        MessageSpec { op: self.op, id: self.id, rest: self.rest@ }
    }
}

/// A message on the wire: the length of what follows, the opcode, the id and the rest.
pub open spec fn message_bytes(m: MessageSpec) -> Seq<u8> {
    le32((HEAD + m.rest.len()) as u32) + seq![m.op] + le32(m.id) + m.rest
}

/// The first message some bytes hold, and what follows it. A frame too short for an opcode and an
/// id says nothing. That it is passed over, rather than taken for an error, is a choice of this
/// library.
pub open spec fn pending(buf: Seq<u8>) -> (Option<MessageSpec>, Seq<u8>)
    decreases buf.len(),
{
    if buf.len() < 4 || buf.len() < 4 + u32_le(buf, 0) {
        (None, buf)
    } else {
        let end = 4 + u32_le(buf, 0);
        if u32_le(buf, 0) < HEAD {
            pending(buf.skip(end))
        } else {
            (
                Some(MessageSpec { op: buf[4], id: u32_le(buf, 5), rest: buf.subrange(9, end) }),
                buf.skip(end),
            )
        }
    }
}

/// Collects what the socket hands over and takes whole messages off.
pub struct Framer {
    pub buf: Vec<u8>,
}

impl Framer {
    pub fn new() -> (r: Self)
        ensures
            r.buf@ == Seq::<u8>::empty(),
    {
        Framer { buf: Vec::new() }
    }

    /// Takes the next chunk from the socket.
    pub fn push(&mut self, chunk: &[u8])
        ensures
            final(self).buf@ == old(self).buf@ + chunk@,
    {
        append(&mut self.buf, chunk);
    }

    /// Takes the next chunk from the socket and takes every message off that it completes.
    pub fn feed(&mut self, chunk: &[u8]) -> (out: Vec<Message>)
        ensures
            said(out@) == all_pending(old(self).buf@ + chunk@).0,
            final(self).buf@ == all_pending(old(self).buf@ + chunk@).1,
    {
        self.push(chunk);
        let ghost start = self.buf@;
        let mut out: Vec<Message> = Vec::new();
        assert(said(out@) + all_pending(start).0 =~= all_pending(start).0);
        loop
            invariant
                all_pending(start).0 == said(out@) + all_pending(self.buf@).0,
                all_pending(start).1 == all_pending(self.buf@).1,
                start == old(self).buf@ + chunk@,
            decreases self.buf@.len(),
        {
            let ghost before = self.buf@;
            let ghost done = said(out@);
            proof {
                one_after_another(before);
            }
            match self.next_message() {
                Some(m) => {
                    let ghost one = m@;
                    out.push(m);
                    proof {
                        let more = all_pending(self.buf@).0;
                        assert(said(out@) =~= done.push(one));
                        assert(done + (seq![one] + more) =~= said(out@) + more);
                    }
                },
                None => {
                    proof {
                        one_after_another(before);
                        rests(before);
                        assert(said(out@) + Seq::<MessageSpec>::empty() =~= said(out@));
                    }
                    return out;
                },
            }
        }
    }

    /// The next message, where it is complete.
    pub fn next_message(&mut self) -> (r: Option<Message>)
        ensures
            final(self).buf@ == pending(old(self).buf@).1,
            match r {
                Some(m) => pending(old(self).buf@).0 == Some(m@),
                None => pending(old(self).buf@).0 is None,
            },
    {
        let ghost start = self.buf@;
        loop
            invariant
                start == old(self).buf@,
                pending(start) == pending(self.buf@),
            decreases self.buf@.len(),
        {
            if self.buf.len() < 4 {
                return None;
            }
            let n: usize = get_le32(&self.buf, 0) as usize;
            if self.buf.len() - 4 < n {
                return None;
            }
            let end: usize = 4 + n;
            let tail = copy_range(&self.buf, end, self.buf.len());
            assert(tail@ =~= self.buf@.skip(end as int));
            if n < HEAD {
                self.buf = tail;
                continue;
            }
            let m = Message { op: self.buf[4], id: get_le32(&self.buf, 5), rest: copy_range(&self.buf, 9, end) };
            self.buf = tail;
            return Some(m);
        }
    }
}

/// The messages of a list.
pub open spec fn said(list: Seq<Message>) -> Seq<MessageSpec> {
    Seq::new(list.len(), |i: int| list[i]@)
}

/// All messages some bytes hold, and what is left behind them.
pub open spec fn all_pending(buf: Seq<u8>) -> (Seq<MessageSpec>, Seq<u8>)
    decreases buf.len(),
{
    if buf.len() < 4 || buf.len() < 4 + u32_le(buf, 0) {
        (Seq::empty(), buf)
    } else {
        let end = 4 + u32_le(buf, 0);
        let tail = all_pending(buf.skip(end));
        if u32_le(buf, 0) < HEAD {
            tail
        } else {
            (
                seq![MessageSpec { op: buf[4], id: u32_le(buf, 5), rest: buf.subrange(9, end) }] + tail.0,
                tail.1,
            )
        }
    }
}

/// Taking one message after another off takes all of them off.
proof fn one_after_another(buf: Seq<u8>)
    ensures
        match pending(buf).0 {
            Some(m) => {
                &&& pending(buf).1.len() < buf.len()
                &&& all_pending(buf).0 == seq![m] + all_pending(pending(buf).1).0
                &&& all_pending(buf).1 == all_pending(pending(buf).1).1
            },
            None => all_pending(buf) == (Seq::<MessageSpec>::empty(), pending(buf).1),
        },
    decreases buf.len(),
{
    if buf.len() >= 4 && buf.len() >= 4 + u32_le(buf, 0) && u32_le(buf, 0) < HEAD {
        one_after_another(buf.skip(4 + u32_le(buf, 0)));
    }
}

/// What is left where no message is complete holds none.
proof fn rests(buf: Seq<u8>)
    requires
        pending(buf).0 is None,
    ensures
        all_pending(pending(buf).1) == (Seq::<MessageSpec>::empty(), pending(buf).1),
    decreases buf.len(),
{
    if buf.len() >= 4 && buf.len() >= 4 + u32_le(buf, 0) && u32_le(buf, 0) < HEAD {
        rests(buf.skip(4 + u32_le(buf, 0)));
    }
}

/// It makes no difference in how many chunks the bytes come in: the messages of the first, and then
/// those of what was left of it with the second behind, are the messages of both together.
pub proof fn chunks_make_no_difference(a: Seq<u8>, b: Seq<u8>)
    ensures
        all_pending(a + b).0 == all_pending(a).0 + all_pending(all_pending(a).1 + b).0,
        all_pending(a + b).1 == all_pending(all_pending(a).1 + b).1,
    decreases a.len(),
{
    if a.len() < 4 || a.len() < 4 + u32_le(a, 0) {
        assert(all_pending(a).0 + all_pending(a + b).0 =~= all_pending(a + b).0);
    } else {
        let end = 4 + u32_le(a, 0);
        let both = a + b;
        assert(u32_le(both, 0) == u32_le(a, 0));
        assert(both.skip(end) =~= a.skip(end) + b);
        chunks_make_no_difference(a.skip(end), b);
        if u32_le(a, 0) >= HEAD {
            assert(both.subrange(9, end) =~= a.subrange(9, end));
            assert(u32_le(both, 5) == u32_le(a, 5));
            let m = MessageSpec { op: a[4], id: u32_le(a, 5), rest: a.subrange(9, end) };
            let more = all_pending(all_pending(a).1 + b).0;
            assert(seq![m] + (all_pending(a.skip(end)).0 + more) =~= (seq![m] + all_pending(a.skip(end)).0) + more);
        }
    }
}

/// A message is taken off whole, whatever follows it, and one that is not complete waits.
pub proof fn a_message_comes_out_as_it_went_in(m: MessageSpec, more: Seq<u8>, k: int)
    requires
        HEAD + m.rest.len() <= 0xffff_ffff,
        0 <= k < message_bytes(m).len(),
    ensures
        pending(message_bytes(m) + more) == (Some(m), more),
        pending(message_bytes(m).take(k)) == (None::<MessageSpec>, message_bytes(m).take(k)),
{
    let b = message_bytes(m);
    let all = b + more;
    let n = (HEAD + m.rest.len()) as u32;
    assert(all.subrange(0, 4) =~= le32(n));
    assert(all.subrange(5, 9) =~= le32(m.id));
    integers_read_back(all, 0, 0, n);
    integers_read_back(all, 5, 0, m.id);
    assert(all[4] == m.op);
    assert(all.subrange(9, 4 + n) =~= m.rest);
    assert(all.skip(4 + n) =~= more);
    if k >= 4 {
        assert(b.take(k).subrange(0, 4) =~= le32(n));
        integers_read_back(b.take(k), 0, 0, n);
    }
}

proof fn text_reads(text: Seq<char>)
    ensures
        valid_utf8(encode_utf8(text)),
        decode_utf8(encode_utf8(text)) == text,
        text.len() > 0 <==> encode_utf8(text).len() > 0,
        device_of(encode_utf8(text)) == (if text.len() > 0 { Some(text) } else { None }),
{
    encode_utf8_valid_utf8(text);
    encode_utf8_decode_utf8(text);
    if encode_utf8(text).len() == 0 {
        assert(encode_utf8(text) =~= encode_utf8(Seq::<char>::empty()));
        encode_utf8_decode_utf8(Seq::<char>::empty());
        assert(text =~= Seq::<char>::empty());
    }
}

/// What opens an audio stream, as it is written.
pub open spec fn audio_message(codec: u8, pt: u8, rate: u32, channels: u8, latency: u32, flags: u8, key: Seq<u8>, device: Seq<char>) -> Seq<u8> {
    seq![codec, pt] + le32(rate) + seq![channels] + le32(latency) + seq![flags] + key + encode_utf8(device)
}

/// A message that opens an audio stream reads back, field by field, the key included.
pub proof fn an_audio_message_reads_back(
    codec: u8,
    pt: u8,
    rate: u32,
    channels: u8,
    latency: u32,
    flags: u8,
    key: Seq<u8>,
    device: Seq<char>,
    c: AudioConfig,
)
    requires
        key.len() == 32,
        is_audio(c, audio_message(codec, pt, rate, channels, latency, flags, key, device)),
    ensures
        audio_message(codec, pt, rate, channels, latency, flags, key, device).len() >= AUDIO_FIXED,
        c.codec == (if codec == 1 {
            AudioCodec::Opus
        } else if codec == 2 {
            AudioCodec::Lpcm
        } else if codec == 3 {
            AudioCodec::PcmLe
        } else {
            AudioCodec::AacLc
        }),
        c.payload_type == pt,
        c.clock_rate == rate,
        c.channels == channels,
        c.latency_ms == latency,
        c.realtime == (flags as int % 2 == 1),
        is_fed(audio_message(codec, pt, rate, channels, latency, flags, key, device)) == (flags as int / 2 % 2 == 1),
        c.key@ == key,
        says(c.device, if device.len() > 0 { Some(device) } else { None }),
{
    let m = audio_message(codec, pt, rate, channels, latency, flags, key, device);
    text_reads(device);
    assert(m.subrange(2, 6) =~= le32(rate));
    assert(m.subrange(7, 11) =~= le32(latency));
    integers_read_back(m, 2, 0, rate);
    integers_read_back(m, 7, 0, latency);
    assert(m[11] == flags);
    assert(m.subrange(12, 44) =~= key);
    assert(m.skip(44) =~= encode_utf8(device));
}

/// What opens the microphone, as it is written.
pub open spec fn mic_message(
    codec: u8,
    pt: u8,
    rate: u32,
    channels: u8,
    bitrate: u32,
    ms: u32,
    port: u16,
    key: Seq<u8>,
    phone: Seq<char>,
    device: Seq<char>,
) -> Seq<u8> {
    seq![codec, pt] + le32(rate) + seq![channels] + le32(bitrate) + le32(ms) + le16(port) + key
        + seq![encode_utf8(phone).len() as u8] + encode_utf8(phone) + encode_utf8(device)
}

/// A message that opens the microphone reads back, field by field, the key included.
pub proof fn a_mic_message_reads_back(
    codec: u8,
    pt: u8,
    rate: u32,
    channels: u8,
    bitrate: u32,
    ms: u32,
    port: u16,
    key: Seq<u8>,
    phone: Seq<char>,
    device: Seq<char>,
    c: UplinkConfig,
)
    requires
        key.len() == 32,
        encode_utf8(phone).len() <= 255,
        is_uplink(c, mic_message(codec, pt, rate, channels, bitrate, ms, port, key, phone, device)),
    ensures
        mic_complete(mic_message(codec, pt, rate, channels, bitrate, ms, port, key, phone, device)),
        c.codec == (if codec == 1 { UplinkCodec::Pcm } else { UplinkCodec::Opus }),
        c.payload_type == pt,
        c.sample_rate == rate,
        c.channels == channels,
        c.bitrate == bitrate,
        c.frame_ms == ms,
        c.port == port,
        c.key@ == key,
        c.phone@ == phone,
        says(c.device, if device.len() > 0 { Some(device) } else { None }),
{
    let m = mic_message(codec, pt, rate, channels, bitrate, ms, port, key, phone, device);
    let n = encode_utf8(phone).len() as int;
    text_reads(device);
    text_reads(phone);
    encode_utf8_decode_utf8(c.phone@);
    assert(m.subrange(2, 6) =~= le32(rate));
    assert(m.subrange(7, 11) =~= le32(bitrate));
    assert(m.subrange(11, 15) =~= le32(ms));
    assert(m.subrange(15, 17) =~= le16(port));
    integers_read_back(m, 2, 0, rate);
    integers_read_back(m, 7, 0, bitrate);
    integers_read_back(m, 11, 0, ms);
    integers_read_back(m, 15, port, 0);
    assert(m.subrange(17, 49) =~= key);
    assert(m[49] == n);
    assert(m.subrange(50, 50 + n) =~= encode_utf8(phone));
    assert(m.skip(50 + n) =~= encode_utf8(device));
}

/// What opens a microphone tap, as it is written.
pub open spec fn tap_message(rate: u32, channels: u8, device: Seq<char>, path: Seq<char>) -> Seq<u8> {
    le32(rate) + seq![channels, encode_utf8(device).len() as u8] + encode_utf8(device) + encode_utf8(path)
}

/// A message that opens a microphone tap reads back, field by field.
pub proof fn a_tap_message_reads_back(rate: u32, channels: u8, device: Seq<char>, path: Seq<char>, c: TapConfig)
    requires
        encode_utf8(device).len() <= 255,
        is_tap(c, tap_message(rate, channels, device, path)),
    ensures
        tap_complete(tap_message(rate, channels, device, path)),
        c.sample_rate == rate,
        c.channels == channels,
        says(c.device, if device.len() > 0 { Some(device) } else { None }),
        c.path@ == path,
{
    let m = tap_message(rate, channels, device, path);
    let n = encode_utf8(device).len() as int;
    text_reads(device);
    text_reads(path);
    assert(m.subrange(0, 4) =~= le32(rate));
    integers_read_back(m, 0, 0, rate);
    assert(m[5] == n);
    assert(m.subrange(6, 6 + n) =~= encode_utf8(device));
    assert(m.skip(6 + n) =~= encode_utf8(path));
}

/// A message that creates a plane gives its codec's name and its data back, the name up to fifteen
/// bytes.
pub proof fn a_create_message_reads_back(name: Seq<u8>, data: Seq<u8>)
    requires
        name.len() <= 15,
    ensures
        create_of(seq![name.len() as u8] + name + data) == Some((lossy(name), data)),
{
    let m = seq![name.len() as u8] + name + data;
    assert(m.subrange(1, 1 + name.len() as int) =~= name);
    assert(m.skip(1 + name.len() as int) =~= data);
}

/// Eight bytes read back as the two halves they were written from, and a volume message gives its
/// level and its ramp back, none where it is left out.
pub proof fn a_volume_message_reads_back(front: Seq<u8>, low: u32, high: u32, ms: u32, more: Seq<u8>)
    ensures
        word(front + le32(low) + le32(high) + more, front.len() as int) == low + high * 0x1_0000_0000,
        volume_of(le32(low) + le32(high)) == Some(((low + high * 0x1_0000_0000) as u64, 0u64)),
        volume_of(le32(low) + le32(high) + le32(ms) + more) == Some(((low + high * 0x1_0000_0000) as u64, ms as u64)),
{
    let a = front + le32(low) + le32(high) + more;
    let i = front.len() as int;
    assert(a.subrange(i, i + 4) =~= le32(low));
    assert(a.subrange(i + 4, i + 8) =~= le32(high));
    integers_read_back(a, i, 0, low);
    integers_read_back(a, i + 4, 0, high);
    let b = le32(low) + le32(high);
    assert(b.subrange(0, 4) =~= le32(low));
    assert(b.subrange(4, 8) =~= le32(high));
    integers_read_back(b, 0, 0, low);
    integers_read_back(b, 4, 0, high);
    let c = le32(low) + le32(high) + le32(ms) + more;
    assert(c.subrange(0, 4) =~= le32(low));
    assert(c.subrange(4, 8) =~= le32(high));
    assert(c.subrange(8, 12) =~= le32(ms));
    integers_read_back(c, 0, 0, low);
    integers_read_back(c, 4, 0, high);
    integers_read_back(c, 8, 0, ms);
}

/// A cluster plane is fed by the cluster's receiver, and every other plane by the one of its own id.
pub proof fn a_plane_has_its_feeder(cluster: Cluster, id: u32)
    ensures
        feeder(cluster, id) == cluster.receiver <==> (cluster.plane_min <= id && id <= cluster.plane_max) || id == cluster.receiver,
        feeder(cluster, id) == cluster.receiver || feeder(cluster, id) == id,
{
}

/// Whoever opens the microphone gets what was written: read from its message, every field is the one that
/// went in, and a message that is cut short opens nothing.
pub proof fn the_microphone_opens_as_written(
    rest: &[u8],
    pt: u8,
    rate: u32,
    channels: u8,
    bitrate: u32,
    ms: u32,
    port: u16,
    key: Seq<u8>,
    phone: Seq<char>,
    device: Seq<char>,
    r: Option<UplinkConfig>,
)
    requires
        call_ensures(read_uplink, (rest,), r),
        key.len() == 32,
        encode_utf8(phone).len() <= 255,
    ensures
        rest@ == mic_message(0, pt, rate, channels, bitrate, ms, port, key, phone, device) ==> (r matches Some(c)
            && c.codec == UplinkCodec::Opus && c.payload_type == pt && c.sample_rate == rate && c.channels == channels
            && c.bitrate == bitrate && c.frame_ms == ms && c.port == port && c.key@ == key && c.phone@ == phone
            && says(c.device, if device.len() > 0 { Some(device) } else { None })),
        rest@ == mic_message(1, pt, rate, channels, bitrate, ms, port, key, phone, device) ==> (r matches Some(c)
            && c.codec == UplinkCodec::Pcm && c.payload_type == pt && c.sample_rate == rate && c.channels == channels
            && c.bitrate == bitrate && c.frame_ms == ms && c.port == port && c.key@ == key && c.phone@ == phone
            && says(c.device, if device.len() > 0 { Some(device) } else { None })),
        rest@.len() < 50 || rest@.len() < 50 + rest@[49] ==> r is None,
{
    let m = rest@;
    if m == mic_message(0, pt, rate, channels, bitrate, ms, port, key, phone, device) {
        mic_is_complete(0, pt, rate, channels, bitrate, ms, port, key, phone, device);
        a_mic_message_reads_back(0, pt, rate, channels, bitrate, ms, port, key, phone, device, r->0);
    }
    if m == mic_message(1, pt, rate, channels, bitrate, ms, port, key, phone, device) {
        mic_is_complete(1, pt, rate, channels, bitrate, ms, port, key, phone, device);
        a_mic_message_reads_back(1, pt, rate, channels, bitrate, ms, port, key, phone, device, r->0);
    }
}

proof fn mic_is_complete(
    codec: u8,
    pt: u8,
    rate: u32,
    channels: u8,
    bitrate: u32,
    ms: u32,
    port: u16,
    key: Seq<u8>,
    phone: Seq<char>,
    device: Seq<char>,
)
    requires
        key.len() == 32,
        encode_utf8(phone).len() <= 255,
    ensures
        mic_complete(mic_message(codec, pt, rate, channels, bitrate, ms, port, key, phone, device)),
{
    let m = mic_message(codec, pt, rate, channels, bitrate, ms, port, key, phone, device);
    assert(m[49] == encode_utf8(phone).len());
}

/// Whoever opens an audio stream gets what was written, and a message that is cut short opens nothing.
pub proof fn a_stream_opens_as_written(
    rest: &[u8],
    codec: u8,
    pt: u8,
    rate: u32,
    channels: u8,
    latency: u32,
    flags: u8,
    key: Seq<u8>,
    device: Seq<char>,
    r: Option<(AudioConfig, bool)>,
)
    requires
        call_ensures(read_audio, (rest,), r),
        key.len() == 32,
    ensures
        rest@ == audio_message(codec, pt, rate, channels, latency, flags, key, device) ==> (r matches Some((c, fed))
            && fed == (flags as int / 2 % 2 == 1) && c.realtime == (flags as int % 2 == 1)
            && c.codec == (if codec == 1 {
                AudioCodec::Opus
            } else if codec == 2 {
                AudioCodec::Lpcm
            } else if codec == 3 {
                AudioCodec::PcmLe
            } else {
                AudioCodec::AacLc
            }) && c.payload_type == pt && c.clock_rate == rate && c.channels == channels && c.latency_ms == latency
            && c.key@ == key && says(c.device, if device.len() > 0 { Some(device) } else { None })),
        rest@.len() < 44 ==> r is None,
{
    if rest@ == audio_message(codec, pt, rate, channels, latency, flags, key, device) {
        assert(rest@.len() >= 44);
        match r {
            Some((c, fed)) => {
                an_audio_message_reads_back(codec, pt, rate, channels, latency, flags, key, device, c);
            },
            None => {},
        }
    }
}

/// Whoever opens a tap gets what was written, and a message without a readable path opens nothing.
pub proof fn a_tap_opens_as_written(rest: &[u8], rate: u32, channels: u8, device: Seq<char>, path: Seq<char>, r: Option<TapConfig>)
    requires
        call_ensures(read_tap, (rest,), r),
        encode_utf8(device).len() <= 255,
    ensures
        rest@ == tap_message(rate, channels, device, path) ==> (r matches Some(c) && c.sample_rate == rate
            && c.channels == channels && says(c.device, if device.len() > 0 { Some(device) } else { None })
            && c.path@ == path),
        rest@.len() < 6 || rest@.len() < 6 + rest@[5] ==> r is None,
{
    let m = rest@;
    if m == tap_message(rate, channels, device, path) {
        let n = encode_utf8(device).len() as int;
        text_reads(path);
        assert(m[5] == n);
        assert(m.skip(6 + n) =~= encode_utf8(path));
        assert(tap_complete(m));
        a_tap_message_reads_back(rate, channels, device, path, r->0);
    }
}

} // verus!
