//! Android Auto over the air: the access point a phone is invited to, and the exchange that does
//! it.

use vstd::prelude::*;

use crate::names::holds;
use crate::text::{lowercase, read_unsigned, same_text, to_lower, to_upper, unsigned, uppercase, views};

verus! {

/// The access point a phone is invited to.
pub struct AaConfig {
    pub ssid: String,
    pub passphrase: String,
    pub channel: u16,
    pub wifi_iface: String,
    pub ap_ip: String,
    pub port: u16,
}

/// A value where there is one, else a fallback.
pub open spec fn or_else(value: Option<String>, fallback: Seq<char>) -> Seq<char> {
    match value {
        Some(v) => v@,
        None => fallback,
    }
}

fn take_or(value: &Option<String>, fallback: &str) -> (out: String)
    ensures
        out@ == or_else(*value, fallback@),
{
    match value {
        Some(v) => v.clone(),
        None => fallback.to_owned(),
    }
}

/// The channel a status field writes, else a fallback.
pub open spec fn channel_or(field: Option<String>, fallback: u16) -> u16 {
    match field {
        Some(f) => match unsigned(f@, 10, 0xffff) {
            Some(c) => c as u16,
            None => fallback,
        },
        None => fallback,
    }
}

/// The channel a status field writes, else a fallback.
pub fn read_channel(field: &Option<String>, fallback: u16) -> (c: u16)
    ensures
        c == channel_or(*field, fallback),
{
    match field {
        Some(f) => match read_unsigned(f.as_str(), 10, 0xffff) {
            Some(c) => c as u16,
            None => fallback,
        },
        None => fallback,
    }
}

impl AaConfig {
    /// The dongle's own access point, with what the dongle reports of it as far as it does.
    pub fn over_dongle(
        base: &AaConfig,
        passphrase: &str,
        ssid: &Option<String>,
        channel: &Option<String>,
        address: &Option<String>,
    ) -> (r: AaConfig)
        ensures
            r.ssid@ == or_else(*ssid, base.ssid@),
            r.passphrase@ == passphrase@,
            r.channel == channel_or(*channel, base.channel),
            r.wifi_iface@ == base.wifi_iface@,
            r.ap_ip@ == or_else(*address, base.ap_ip@),
            r.port == base.port,
    {
        AaConfig {
            ssid: take_or(ssid, base.ssid.as_str()),
            passphrase: passphrase.to_owned(),
            channel: read_channel(channel, base.channel),
            wifi_iface: base.wifi_iface.clone(),
            ap_ip: take_or(address, base.ap_ip.as_str()),
            port: base.port,
        }
    }

    /// The access point on an interface of this machine, with what the interface reports as far as
    /// it says anything.
    pub fn over_wifi(
        base: &AaConfig,
        iface: &str,
        passphrase: &str,
        ssid: &Option<String>,
        channel: Option<u8>,
    ) -> (r: AaConfig)
        ensures
            r.ssid@ == (if (*ssid matches Some(s) && s@.len() > 0) { ssid->0@ } else { base.ssid@ }),
            r.passphrase@ == passphrase@,
            r.channel == (match channel {
                Some(c) => if c != 0 { c as u16 } else { base.channel },
                None => base.channel,
            }),
            r.wifi_iface@ == iface@,
            r.ap_ip@ == base.ap_ip@,
            r.port == base.port,
    {
        let name = match ssid {
            Some(s) => if s.as_str().is_empty() { base.ssid.clone() } else { s.clone() },
            None => base.ssid.clone(),
        };
        AaConfig {
            ssid: name,
            passphrase: passphrase.to_owned(),
            channel: match channel {
                Some(c) => if c != 0 { c as u16 } else { base.channel },
                None => base.channel,
            },
            wifi_iface: iface.to_owned(),
            ap_ip: base.ap_ip.clone(),
            port: base.port,
        }
    }
}

/// What the dongle reports of its own access point, as far as it does.
pub struct DongleAp {
    pub ssid: Option<String>,
    pub channel: Option<String>,
    /// The address of this machine that faces the dongle.
    pub address: Option<String>,
    pub mac: Option<String>,
}

/// What an interface of this machine reports of its access point, as far as it does.
pub struct OwnAp {
    pub ssid: Option<String>,
    pub channel: Option<u8>,
    pub mac: Option<String>,
}

/// The access point a phone is invited to as it is now, and its hardware address, empty where it is
/// not known: the dongle's where the interface is the choice that names the dongle, else the one on
/// that interface.
pub fn access_point(
    base: &AaConfig,
    iface: &str,
    choice: &str,
    passphrase: &str,
    dongle: &DongleAp,
    own: &OwnAp,
) -> (r: (AaConfig, String))
    ensures
        r.0.passphrase@ == passphrase@,
        r.0.port == base.port,
        iface@ == choice@ ==> {
            &&& r.0.ssid@ == or_else(dongle.ssid, base.ssid@)
            &&& r.0.channel == channel_or(dongle.channel, base.channel)
            &&& r.0.wifi_iface@ == base.wifi_iface@
            &&& r.0.ap_ip@ == or_else(dongle.address, base.ap_ip@)
            &&& r.1@ == or_else(dongle.mac, Seq::empty())
        },
        iface@ != choice@ ==> {
            &&& r.0.ssid@ == (if (own.ssid matches Some(s) && s@.len() > 0) { own.ssid->0@ } else { base.ssid@ })
            &&& r.0.channel == (match own.channel {
                Some(c) => if c != 0 { c as u16 } else { base.channel },
                None => base.channel,
            })
            &&& r.0.wifi_iface@ == iface@
            &&& r.0.ap_ip@ == base.ap_ip@
            &&& r.1@ == or_else(own.mac, Seq::empty())
        },
{
    proof {
        reveal_strlit("");
        assert(""@ =~= Seq::<char>::empty());
    }
    if same_text(iface, choice) {
        let live = AaConfig::over_dongle(base, passphrase, &dongle.ssid, &dongle.channel, &dongle.address);
        (live, take_or(&dongle.mac, ""))
    } else {
        let live = AaConfig::over_wifi(base, iface, passphrase, &own.ssid, own.channel);
        (live, take_or(&own.mac, ""))
    }
}

/// What the invitation tells a phone: where to connect.
pub struct Invitation {
    pub address: String,
    pub port: u16,
}

/// The invitation to an access point.
pub fn invitation(cfg: &AaConfig) -> (r: Invitation)
    ensures
        r.address@ == cfg.ap_ip@,
        r.port == cfg.port,
{
    Invitation { address: cfg.ap_ip.clone(), port: cfg.port }
}

/// What a phone that asks is told about the access point.
pub struct ApInfo {
    pub ssid: String,
    pub passphrase: String,
    /// The hardware address in lower case.
    pub bssid: String,
}

/// What a phone that asks is told about the access point.
pub fn ap_info(cfg: &AaConfig, bssid: &str) -> (r: ApInfo)
    ensures
        r.ssid@ == cfg.ssid@,
        r.passphrase@ == cfg.passphrase@,
        r.bssid@ == lowercase(bssid@),
{
    ApInfo { ssid: cfg.ssid.clone(), passphrase: cfg.passphrase.clone(), bssid: to_lower(bssid) }
}

/// Phones already projecting over USB, which must not be invited onto the access point.
pub struct WiredPhones(pub Vec<String>);

/// Each text of a list in upper case.
pub open spec fn uppers(list: Seq<String>) -> Seq<Seq<char>> {
    Seq::new(list.len(), |i: int| uppercase(list[i]@))
}

impl WiredPhones {
    /// Nobody projects over USB.
    pub fn new() -> (r: Self)
        ensures
            views(r.0@) == Seq::<Seq<char>>::empty(),
    {
        let r = WiredPhones(Vec::new());
        assert(views(r.0@) =~= Seq::<Seq<char>>::empty());
        r
    }

    /// Who projects over USB from now on, by any of its ids.
    pub fn set(&mut self, ids: Vec<String>)
        ensures
            views(final(self).0@) == uppers(ids@),
    {
        let mut out: Vec<String> = Vec::new();
        let mut i: usize = 0;
        while i < ids.len()
            invariant
                i <= ids@.len(),
                out@.len() == i,
                forall|j: int| 0 <= j < i ==> (#[trigger] out@[j])@ == uppercase(ids@[j]@),
            decreases ids@.len() - i,
        {
            out.push(to_upper(ids[i].as_str()));
            i += 1;
        }
        assert(views(out@) =~= uppers(ids@));
        self.0 = out;
    }

    /// Whether one of some ids belongs to a phone that projects over USB. An empty id belongs to
    /// nobody.
    pub fn contains(&self, ids: &Vec<String>) -> (r: bool)
        ensures
            r == (exists|i: int| 0 <= i < ids@.len() && (#[trigger] ids@[i])@.len() > 0
                && views(self.0@).contains(uppercase(ids@[i]@))),
    {
        let mut i: usize = 0;
        while i < ids.len()
            invariant
                i <= ids@.len(),
                forall|j: int| 0 <= j < i ==> !((#[trigger] ids@[j])@.len() > 0
                    && views(self.0@).contains(uppercase(ids@[j]@))),
            decreases ids@.len() - i,
        {
            if !ids[i].as_str().is_empty() && holds(&self.0, to_upper(ids[i].as_str()).as_str()) {
                assert(ids@[i as int]@.len() > 0);
                return true;
            }
            i += 1;
        }
        false
    }
}

/// A phone that was named is recognised by the same id, and by any other that reads the same in
/// upper case.
pub proof fn a_named_phone_is_recognised(ids: Seq<String>, i: int, id: Seq<char>)
    requires
        0 <= i < ids.len(),
        uppercase(id) == uppercase(ids[i]@),
    ensures
        uppers(ids).contains(uppercase(id)),
{
    assert(uppers(ids)[i] == uppercase(id));
}

/// A message of the exchange, by what it is.
#[derive(PartialEq, Eq, Structural, Clone, Copy)]
pub enum Wpp {
    VersionResponse,
    InfoRequest,
    ConnectionStatus,
    Ping,
    StartResponse,
    Other(u16),
}

/// Who a phone says it is.
pub struct PhoneId {
    pub instance_id: String,
    pub serial: String,
}

/// Whether a phone projects over USB: one of its ids, as far as it has them, is a wired phone's.
pub open spec fn projects(wired: Seq<Seq<char>>, mac: Seq<char>, instance_id: Seq<char>, serial: Seq<char>) -> bool {
    ||| mac.len() > 0 && wired.contains(uppercase(mac))
    ||| instance_id.len() > 0 && wired.contains(uppercase(instance_id))
    ||| serial.len() > 0 && wired.contains(uppercase(serial))
}

/// Whether a phone projects over USB, by its address, its instance id or its serial.
pub fn is_projecting(wired: &WiredPhones, mac: &str, id: &PhoneId) -> (r: bool)
    ensures
        r == projects(views(wired.0@), mac@, id.instance_id@, id.serial@),
{
    let mut ids: Vec<String> = Vec::new();
    ids.push(mac.to_owned());
    ids.push(id.instance_id.clone());
    ids.push(id.serial.clone());
    let r = wired.contains(&ids);
    assert(ids@[0]@ == mac@ && ids@[1]@ == id.instance_id@ && ids@[2]@ == id.serial@);
    r
}

/// What one message of the exchange asks for.
#[derive(PartialEq, Eq, Structural, Clone, Copy)]
pub enum Reaction {
    /// What there is to know about the access point.
    SendInfo,
    Joined,
    /// The phone could not join, with its status.
    JoinFailed(u8),
    SendPong,
    /// The phone said who it is, and the app is told.
    Report,
    Nothing,
    /// Not a message we know, with its number.
    Unknown(u16),
    /// No message came in time, and the exchange is over.
    TimedOut,
}

/// What one message of the exchange asks for, or its absence. The status of a connection is its
/// second byte.
pub open spec fn reacted(message: Option<Wpp>, body: Seq<u8>) -> Reaction {
    match message {
        None => Reaction::TimedOut,
        Some(Wpp::InfoRequest) => Reaction::SendInfo,
        Some(Wpp::ConnectionStatus) => if body.len() > 1 && body[1] != 0 {
            Reaction::JoinFailed(body[1])
        } else {
            Reaction::Joined
        },
        Some(Wpp::Ping) => Reaction::SendPong,
        Some(Wpp::VersionResponse) => Reaction::Report,
        Some(Wpp::StartResponse) => Reaction::Nothing,
        Some(Wpp::Other(n)) => Reaction::Unknown(n),
    }
}

/// What one message of the exchange asks for once the phone is invited.
pub fn react(message: Option<Wpp>, body: &[u8]) -> (r: Reaction)
    ensures
        r == reacted(message, body@),
{
    match message {
        None => Reaction::TimedOut,
        Some(Wpp::InfoRequest) => Reaction::SendInfo,
        Some(Wpp::ConnectionStatus) => {
            let status: u8 = if body.len() > 1 { body[1] } else { 0 };
            if status == 0 { Reaction::Joined } else { Reaction::JoinFailed(status) }
        },
        Some(Wpp::Ping) => Reaction::SendPong,
        Some(Wpp::VersionResponse) => Reaction::Report,
        Some(Wpp::StartResponse) => Reaction::Nothing,
        Some(Wpp::Other(n)) => Reaction::Unknown(n),
    }
}

/// Where an exchange is.
#[derive(PartialEq, Eq, Structural, Clone, Copy)]
pub enum Exchange {
    /// The version request is out, and the phone has not answered.
    Asked,
    /// The phone is invited.
    Open,
    /// Nothing is read or sent any more.
    Over,
}

/// What is done for one message of an exchange, in this order.
#[derive(PartialEq, Eq, Structural, Clone, Copy)]
pub struct Doing {
    /// The phone said who it is, and the app is told.
    pub report: bool,
    /// The phone is invited.
    pub invite: bool,
    /// What the message asks for.
    pub also: Option<Reaction>,
}

/// What one message does to an exchange, or that none came in time. A phone answers the version
/// request first, and one that projects over USB by what it answered is let go, so that the session
/// keeps it. Any other one is invited, and a message that was no answer is taken up behind that.
pub open spec fn exchanged(s: Exchange, message: Option<Wpp>, projecting: bool, body: Seq<u8>) -> (Exchange, Doing) {
    match s {
        Exchange::Asked => if message == Some(Wpp::VersionResponse) {
            if projecting {
                (Exchange::Over, Doing { report: true, invite: false, also: None })
            } else {
                (Exchange::Open, Doing { report: true, invite: true, also: None })
            }
        } else {
            (
                Exchange::Open,
                Doing {
                    report: false,
                    invite: true,
                    also: if message is Some { Some(reacted(message, body)) } else { None },
                },
            )
        },
        Exchange::Open => (
            if message is None { Exchange::Over } else { Exchange::Open },
            Doing { report: false, invite: false, also: Some(reacted(message, body)) },
        ),
        Exchange::Over => (Exchange::Over, Doing { report: false, invite: false, also: None }),
    }
}

/// What one message does to an exchange, or that none came in time.
pub fn exchange(s: Exchange, message: Option<Wpp>, projecting: bool, body: &[u8]) -> (r: (Exchange, Doing))
    ensures
        r == exchanged(s, message, projecting, body@),
{
    match s {
        Exchange::Asked => match message {
            Some(Wpp::VersionResponse) => if projecting {
                (Exchange::Over, Doing { report: true, invite: false, also: None })
            } else {
                (Exchange::Open, Doing { report: true, invite: true, also: None })
            },
            Some(m) => {
                let also = Some(react(Some(m), body));
                (Exchange::Open, Doing { report: false, invite: true, also })
            },
            None => (Exchange::Open, Doing { report: false, invite: true, also: None }),
        },
        Exchange::Open => {
            let next = if message.is_none() { Exchange::Over } else { Exchange::Open };
            (next, Doing { report: false, invite: false, also: Some(react(message, body)) })
        },
        Exchange::Over => (Exchange::Over, Doing { report: false, invite: false, also: None }),
    }
}

/// How an exchange starts: the version request goes out, with the channel of the access point.
pub fn greeting(cfg: &AaConfig) -> (r: (Exchange, u16))
    ensures
        r == (Exchange::Asked, cfg.channel),
{
    (Exchange::Asked, cfg.channel)
}

/// One step of the exchange with a phone that says it is this: it projects over USB where its
/// address or one of its ids is a wired phone's.
pub fn handshake(s: Exchange, message: Option<Wpp>, wired: &WiredPhones, mac: &str, id: &PhoneId, body: &[u8]) -> (r: (Exchange, Doing))
    ensures
        r == exchanged(s, message, projects(views(wired.0@), mac@, id.instance_id@, id.serial@), body@),
{
    let projecting = is_projecting(wired, mac, id);
    exchange(s, message, projecting, body)
}

/// One event of an exchange: a message or none in time, whether the phone projects over USB by then,
/// and the body.
pub struct Said {
    pub message: Option<Wpp>,
    pub projecting: bool,
    pub body: Seq<u8>,
}

/// Where an exchange is after some events.
pub open spec fn exchange_at(said: Seq<Said>, k: nat) -> Exchange
    decreases k,
{
    if k == 0 {
        Exchange::Asked
    } else {
        let before = said[k - 1];
        exchanged(exchange_at(said, (k - 1) as nat), before.message, before.projecting, before.body).0
    }
}

/// What is done for an event of an exchange.
pub open spec fn done_at(said: Seq<Said>, k: nat) -> Doing {
    exchanged(exchange_at(said, k), said[k as int].message, said[k as int].projecting, said[k as int].body).1
}

/// An exchange that is over does nothing any more, whatever comes.
pub proof fn an_exchange_stays_over(said: Seq<Said>, from: nat, k: nat)
    requires
        exchange_at(said, from) == Exchange::Over,
        from <= k < said.len(),
    ensures
        exchange_at(said, k) == Exchange::Over,
        done_at(said, k) == (Doing { report: false, invite: false, also: None }),
    decreases k - from,
{
    if k > from {
        an_exchange_stays_over(said, from, (k - 1) as nat);
    }
}

/// A phone that answers the version request and projects over USB by what it answered gets nothing
/// but that request: whatever it says later, it is never invited and never told about the access
/// point, nor answered in any other way.
pub proof fn nothing_goes_to_a_wired_phone(said: Seq<Said>, k: nat)
    requires
        k < said.len(),
        said[0].message == Some(Wpp::VersionResponse),
        said[0].projecting,
    ensures
        !done_at(said, k).invite,
        done_at(said, k).also is None,
        done_at(said, k).report == (k == 0),
        k > 0 ==> exchange_at(said, k) == Exchange::Over,
{
    reveal_with_fuel(exchange_at, 2);
    if k > 0 {
        assert(exchange_at(said, 1) == Exchange::Over);
        an_exchange_stays_over(said, 1, k);
    }
}

/// A phone is told about the access point only once it is invited, and it is invited once at most.
pub proof fn an_invitation_comes_first(said: Seq<Said>, k: nat)
    requires
        k < said.len(),
    ensures
        done_at(said, k).invite ==> k == 0,
        done_at(said, k).also is Some ==> done_at(said, 0).invite,
{
    if k > 0 {
        left_behind(said, k);
        if exchange_at(said, k) == Exchange::Open {
            open_from_the_start(said, k);
        }
    }
}

proof fn left_behind(said: Seq<Said>, k: nat)
    requires
        k > 0,
    ensures
        exchange_at(said, k) != Exchange::Asked,
    decreases k,
{
    if k > 1 {
        left_behind(said, (k - 1) as nat);
    }
}

proof fn open_from_the_start(said: Seq<Said>, k: nat)
    requires
        k > 0,
        exchange_at(said, k) == Exchange::Open,
    ensures
        done_at(said, 0).invite,
    decreases k,
{
    if k > 1 {
        left_behind(said, (k - 1) as nat);
        open_from_the_start(said, (k - 1) as nat);
    } else {
        reveal_with_fuel(exchange_at, 2);
    }
}

/// A phone one of whose ids was named as a wired one's, in whatever case, is recognised, and one
/// none of whose ids was named is not.
pub proof fn a_wired_phone_is_recognised(ids: Seq<String>, mac: Seq<char>, instance_id: Seq<char>, serial: Seq<char>)
    ensures
        projects(uppers(ids), mac, instance_id, serial) == (exists|i: int| 0 <= i < ids.len() && {
            let named = uppercase(#[trigger] ids[i]@);
            ||| mac.len() > 0 && uppercase(mac) == named
            ||| instance_id.len() > 0 && uppercase(instance_id) == named
            ||| serial.len() > 0 && uppercase(serial) == named
        }),
{
    let wired = uppers(ids);
    assert forall|s: Seq<char>| #[trigger] wired.contains(uppercase(s)) implies
        exists|i: int| 0 <= i < ids.len() && uppercase(#[trigger] ids[i]@) == uppercase(s) by {
        let i = choose|i: int| 0 <= i < wired.len() && wired[i] == uppercase(s);
        assert(uppercase(ids[i]@) == uppercase(s));
    }
    assert forall|i: int, s: Seq<char>| 0 <= i < ids.len() && uppercase(ids[i]@) == uppercase(s) implies
        wired.contains(#[trigger] uppercase(s)) || uppercase(#[trigger] ids[i]@) != uppercase(s) by {
        assert(wired[i] == uppercase(s));
    }
}

/// What tells the app who a phone is. Nothing is told of a phone that says nothing.
pub fn emit_device(mac: &str, instance_id: &str, serial: &str) -> (r: Option<String>)
    ensures
        match r {
            Some(out) => !(instance_id@.len() == 0 && serial@.len() == 0)
                && out@ == "{\"event\":\"aa-device\",\"btMac\":\""@ + uppercase(mac@) + "\",\"instanceId\":\""@
                    + instance_id@ + "\",\"usbSerial\":\""@ + serial@ + "\"}"@,
            None => instance_id@.len() == 0 && serial@.len() == 0,
        },
{
    if instance_id.is_empty() && serial.is_empty() {
        return None;
    }
    let mut out = "{\"event\":\"aa-device\",\"btMac\":\"".to_owned();
    out.append(to_upper(mac).as_str());
    out.append("\",\"instanceId\":\"");
    out.append(instance_id);
    out.append("\",\"usbSerial\":\"");
    out.append(serial);
    out.append("\"}");
    Some(out)
}

/// What tells the app about a session over USB.
pub fn session_json(socket: &str, peer: &str, serial: &str) -> (out: String)
    ensures
        out@ == "{\"event\":\"aa-session\",\"socket\":\""@ + socket@ + "\",\"peer\":\""@ + peer@
            + "\",\"transport\":\"usb\",\"serial\":\""@ + serial@ + "\"}"@,
{
    let mut out = "{\"event\":\"aa-session\",\"socket\":\"".to_owned();
    out.append(socket);
    out.append("\",\"peer\":\"");
    out.append(peer);
    out.append("\",\"transport\":\"usb\",\"serial\":\"");
    out.append(serial);
    out.append("\"}");
    out
}

/// A channel that is written as a number is the one that is used, and the fallback where it cannot be one.
pub proof fn a_written_channel_is_used(field: Option<String>, n: nat, fallback: u16)
    requires
        field matches Some(f) && f@ == crate::text::dec(n),
    ensures
        n <= 0xffff ==> channel_or(field, fallback) == n,
        n > 0xffff ==> channel_or(field, fallback) == fallback,
        channel_or(None, fallback) == fallback,
{
    crate::text::a_number_reads_back(n, 10);
}

/// What each message is answered with once a phone is invited: the status in the second byte of a
/// connection's message is a failure where it is not zero.
pub proof fn what_a_message_is_answered_with(status: u8, first: u8, more: Seq<u8>, n: u16, body: Seq<u8>)
    ensures
        status != 0 ==> reacted(Some(Wpp::ConnectionStatus), seq![first, status] + more) == Reaction::JoinFailed(status),
        reacted(Some(Wpp::ConnectionStatus), seq![first, 0u8] + more) == Reaction::Joined,
        reacted(Some(Wpp::ConnectionStatus), seq![first]) == Reaction::Joined,
        reacted(Some(Wpp::ConnectionStatus), Seq::empty()) == Reaction::Joined,
        reacted(Some(Wpp::InfoRequest), body) == Reaction::SendInfo,
        reacted(Some(Wpp::Ping), body) == Reaction::SendPong,
        reacted(Some(Wpp::VersionResponse), body) == Reaction::Report,
        reacted(Some(Wpp::StartResponse), body) == Reaction::Nothing,
        reacted(Some(Wpp::Other(n)), body) == Reaction::Unknown(n),
        reacted(None, body) == Reaction::TimedOut,
{
    let s = seq![first, status] + more;
    assert(s[1] == status);
    let t = seq![first, 0u8] + more;
    assert(t[1] == 0);
}

/// A phone that does not project over USB is invited with its first message or without one, told apart by
/// whether it said who it is, and from then on every message is answered until one does not come in time.
pub proof fn how_an_exchange_goes(message: Option<Wpp>, body: Seq<u8>)
    ensures
        ({
            let first = exchanged(Exchange::Asked, message, false, body);
            let later = exchanged(Exchange::Open, message, false, body);
            &&& first.0 == Exchange::Open && first.1.invite
            &&& first.1.report == (message == Some(Wpp::VersionResponse))
            &&& first.1.also is Some <==> message is Some && message != Some(Wpp::VersionResponse)
            &&& first.1.also is Some ==> first.1.also == later.1.also
            &&& later.0 == (if message is None { Exchange::Over } else { Exchange::Open })
            &&& !later.1.invite && !later.1.report
            &&& later.1.also == Some(reacted(message, body))
            &&& exchanged(Exchange::Open, message, true, body) == later
        }),
{
}

/// An access point that reports nothing is the one that was set up, with the passphrase that is given, and
/// whatever it reports counts over that.
pub proof fn a_report_counts_over_the_setup(
    base: AaConfig,
    passphrase: &str,
    ssid: Option<String>,
    channel: Option<String>,
    address: Option<String>,
    r: AaConfig,
)
    requires
        call_ensures(AaConfig::over_dongle, (&base, passphrase, &ssid, &channel, &address), r),
    ensures
        r.passphrase@ == passphrase@ && r.port == base.port && r.wifi_iface@ == base.wifi_iface@,
        ssid is None ==> r.ssid@ == base.ssid@,
        ssid is Some ==> r.ssid@ == ssid->0@,
        address is None ==> r.ap_ip@ == base.ap_ip@,
        address is Some ==> r.ap_ip@ == address->0@,
        channel is None ==> r.channel == base.channel,
        channel is Some && unsigned(channel->0@, 10, 0xffff) is Some ==> r.channel == unsigned(channel->0@, 10, 0xffff)->0,
{
    if channel is Some {
        crate::text::unsigned_in_range(channel->0@, 10, 0xffff);
    }
}

} // verus!
