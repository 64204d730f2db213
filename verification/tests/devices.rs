use livi::aa::{
    access_point, ap_info, emit_device, exchange, greeting, handshake, invitation, is_projecting, react, session_json, AaConfig,
    Doing, DongleAp, Exchange, OwnAp, PhoneId, Reaction, WiredPhones, Wpp,
};
use livi::aa_usb::{accessory_start, accessory_step, is_accessory, is_candidate, label, protocol, retry_reset, switch_plan, Accessory, Phones, Seen};
use livi::carplay::{accessory_mac, coprocessor_line, cp_config, dongle_session, identify, link_json, published_port, seam, wired_config, CpEnv, DongleReport, Identified, SecurityType, Transport};
use livi::dhcp::{message_type, net_settings, read_dotted, serve_packet, Leases};
use livi::hci::{written, Written};
use livi::led::{
    counts_clients, encode_byte, encode_pixel, lights, parse_rgb, pin_value, pixel_frame, render, wifi_client, LedConfig, LedState,
    Rgb, _iow,
};
use livi::mfi::{
    bus_of, challenge_plan, generation, next_request, parse, poll, probe_challenge, protocol_major, respond, serve, write_frame,
    Ask, AuthCoprocessor, MfiError, Mode, NoCoprocessor, Poll,
};
use livi::ncm::{
    find_ncm_function, host_mac, is_walkable, kernel_ncm_iface, lies_below, mac_string_index, pair_up, profile_name, tap_name, AltSetting, EndpointInfo, NcmBridge, NetEntry,
    NcmFunction,
};
use livi::tries::{next_try, CONTROLLER_TRIES, FIND_TRIES, SHELL_TRIES, TARGET_TRIES};
use livi::wired::{gone_json, refused_line, short, LocalNcm, Plugged, Watch, CONTROL_VERSION, MAX_OUTGOING, ZERO_ACK};

fn strings(list: &[&str]) -> Vec<String> {
    list.iter().map(|s| s.to_string()).collect()
}

#[test]
fn the_label_names_the_serial_or_falls_back() {
    assert_eq!(label("39181FDJH00276"), "usb:39181FDJH00276");
    assert_eq!(label(""), "usb:phone");
}

#[test]
fn phones_are_told_from_other_devices() {
    assert!(is_accessory(0x18d1, 0x2d00) && is_accessory(0x18d1, 0x2d05));
    assert!(!is_accessory(0x18d1, 0x2d06) && !is_accessory(0x04e8, 0x2d00));
    assert!(is_candidate(0x04e8, 0, &[]));
    assert!(is_candidate(0x04e8, 0xff, &[0x08, 0xff]));
    assert!(!is_candidate(0x04e8, 0, &[0x08, 0x03]));
    assert!(!is_candidate(0x0e8d, 0, &[0xff, 0xe0]));
    assert!(!is_candidate(0x04e8, 9, &[]));
    assert!(!is_candidate(0x1234, 0, &[]));
}

#[test]
fn a_phone_is_switched_served_and_parked() {
    let mut p = Phones::new();
    assert!(p.seen(1, "S", false, true) == Seen::Switch);
    assert!(p.seen(1, "S", false, true) == Seen::Nothing);
    p.switched(1, true);
    assert!(!p.gone(1, 0).cancel);
    assert!(p.seen(2, "S", true, false) == Seen::Serve);
    assert_eq!(p.restart(""), vec![2]);
    assert_eq!(p.restart("S"), vec![2]);
    assert_eq!(p.restart("T"), Vec::<u64>::new());
    p.session_ended("S", true, 1000);
    let g = p.gone(2, 4000);
    assert!(g.cancel && g.unparked.is_none());
    p.served(2);
    assert!(p.restart("").is_empty());
    assert!(p.seen(3, "S", false, true) == Seen::Parked);
    assert_eq!(p.gone(3, 9000).unparked, Some("S".to_owned()));
    assert!(p.seen(4, "S", false, true) == Seen::Switch);
    p.switched(4, false);
    assert!(p.seen(4, "S", false, true) == Seen::Nothing);
    assert!(p.seen(9, "", false, false) == Seen::Nothing);
}

#[test]
fn an_accessory_left_over_waits_until_it_is_a_phone_again() {
    let mut p = Phones::new();
    p.releasing("S");
    assert!(p.seen(1, "S", true, false) == Seen::Nothing);
    assert!(p.seen(2, "S", false, true) == Seen::Switch);
    assert!(p.seen(3, "S", true, false) == Seen::Serve);
    p.releasing("T");
    p.release_failed("T");
    assert!(p.seen(4, "T", true, false) == Seen::Serve);
    p.releasing("");
    assert!(p.seen(5, "", true, false) == Seen::Serve);
}

#[test]
fn a_phone_is_told_about_the_host() {
    assert_eq!(protocol(&[2, 0]), Ok(2));
    assert_eq!(protocol(&[0, 0]), Err("protocol 0 not supported".to_owned()));
    assert_eq!(protocol(&[1]), Err("get protocol: short reply".to_owned()));
    let plan = switch_plan();
    assert_eq!(plan.len(), 7);
    assert_eq!((plan[1].request, plan[1].index, plan[1].data.as_slice()), (52, 1, &b"Android Auto\0"[..]));
    assert_eq!((plan[6].request, plan[6].data.len()), (53, 0));
    let mut tries = 1;
    assert!(retry_reset(true, &mut tries));
    assert!(!retry_reset(true, &mut tries));
    assert!(!retry_reset(false, &mut tries));
}

#[test]
fn a_wired_phone_is_known_by_any_of_its_ids() {
    let mut w = WiredPhones::new();
    w.set(strings(&["aa:bb", "straße"]));
    assert_eq!(w.0, strings(&["AA:BB", "STRASSE"]));
    assert!(w.contains(&strings(&["", "Aa:bB"])));
    assert!(w.contains(&strings(&["strasse"])));
    assert!(!w.contains(&strings(&["", "x"])));
    w.set(vec!["".into()]);
    assert!(!w.contains(&strings(&[""])));
}

#[test]
fn the_exchange_invites_a_phone() {
    let of = |s, m, projecting| exchange(s, m, projecting, &[]);
    let doing = |report, invite, also| Doing { report, invite, also };
    assert!(of(Exchange::Asked, Some(Wpp::VersionResponse), true) == (Exchange::Over, doing(true, false, None)));
    assert!(of(Exchange::Asked, Some(Wpp::VersionResponse), false) == (Exchange::Open, doing(true, true, None)));
    assert!(of(Exchange::Asked, Some(Wpp::Ping), true) == (Exchange::Open, doing(false, true, Some(Reaction::SendPong))));
    assert!(of(Exchange::Asked, None, true) == (Exchange::Open, doing(false, true, None)));
    assert!(of(Exchange::Open, Some(Wpp::InfoRequest), true) == (Exchange::Open, doing(false, false, Some(Reaction::SendInfo))));
    assert!(of(Exchange::Open, None, false) == (Exchange::Over, doing(false, false, Some(Reaction::TimedOut))));
    for m in [Some(Wpp::InfoRequest), Some(Wpp::VersionResponse), Some(Wpp::Ping), None] {
        assert!(of(Exchange::Over, m, false) == (Exchange::Over, doing(false, false, None)));
    }
    assert!(react(Some(Wpp::InfoRequest), &[]) == Reaction::SendInfo);
    assert!(react(Some(Wpp::ConnectionStatus), &[8, 3]) == Reaction::JoinFailed(3));
    assert!(react(Some(Wpp::ConnectionStatus), &[8]) == Reaction::Joined);
    assert!(react(Some(Wpp::Ping), &[]) == Reaction::SendPong);
    assert!(react(Some(Wpp::VersionResponse), &[]) == Reaction::Report);
    assert!(react(Some(Wpp::StartResponse), &[]) == Reaction::Nothing);
    assert!(react(Some(Wpp::Other(9)), &[]) == Reaction::Unknown(9));
    assert!(react(None, &[]) == Reaction::TimedOut);
    assert_eq!(
        emit_device("ab:cd", "i", "s"),
        Some("{\"event\":\"aa-device\",\"btMac\":\"AB:CD\",\"instanceId\":\"i\",\"usbSerial\":\"s\"}".to_owned())
    );
    assert_eq!(emit_device("m", "", ""), None);
    assert_eq!(
        session_json("/s", "p", "n"),
        "{\"event\":\"aa-session\",\"socket\":\"/s\",\"peer\":\"p\",\"transport\":\"usb\",\"serial\":\"n\"}"
    );
}

#[test]
fn the_access_point_is_what_is_reported_of_it() {
    let base = AaConfig {
        ssid: "b".into(),
        passphrase: "p".into(),
        channel: 36,
        wifi_iface: "wlan0".into(),
        ap_ip: "10.0.0.1".into(),
        port: 5288,
    };
    let d = AaConfig::over_dongle(&base, "q", &Some("s".into()), &Some("149".into()), &None);
    assert_eq!((d.ssid.as_str(), d.passphrase.as_str(), d.channel, d.ap_ip.as_str()), ("s", "q", 149, "10.0.0.1"));
    assert_eq!(AaConfig::over_dongle(&base, "q", &None, &Some("x".into()), &None).channel, 36);
    let w = AaConfig::over_wifi(&base, "wlan1", "q", &Some("".into()), Some(0));
    assert_eq!((w.ssid.as_str(), w.channel, w.wifi_iface.as_str()), ("b", 36, "wlan1"));
    let w = AaConfig::over_wifi(&base, "wlan1", "q", &Some("n".into()), Some(6));
    assert_eq!((w.ssid.as_str(), w.channel), ("n", 6));
}

#[test]
fn the_accessory_address_is_given_or_derived() {
    assert_eq!(accessory_mac(Some("01:02:03:04:05:06"), "x"), [1, 2, 3, 4, 5, 6]);
    assert_eq!(accessory_mac(Some("01:zz:02:03:04:05:06"), "x"), [1, 2, 3, 4, 5, 6]);
    assert_eq!(accessory_mac(Some("01:02"), "abcdef"), [2, b'a' ^ b'f', b'b', b'c', b'd', b'e']);
    assert_eq!(accessory_mac(None, ""), [2, 0, 0, 0, 0, 0]);
}

fn empty_env() -> CpEnv {
    CpEnv { name: None, pi: None, passphrase: None, channel: None, airplay_port: None, source_version: None, bt_mac: None }
}

#[test]
fn the_session_settings_have_defaults() {
    let (cp, id) = cp_config(&empty_env());
    assert_eq!((cp.ssid.as_str(), cp.passphrase.as_str(), cp.channel, cp.airplay_port), ("LIVI", "12345678", 36, 7000));
    assert_eq!((cp.source_version.as_str(), cp.public_key.as_str(), cp.available_current_ma), ("950.7.1", "", 500));
    assert_eq!((id.name.as_str(), id.bt_mac), ("LIVI", [2, 0, 0, 0, 0, 0]));
    assert!(cp.security_type == SecurityType::WpaWpa2);
    let report = DongleReport {
        ap_mac: Some("m".into()),
        ssid: Some("car".into()),
        channel: Some("44".into()),
        iface: Some("en5".into()),
        bt_mac: Some([9; 6]),
    };
    let s = seam("dongle", "dongle", cp, id, &report);
    assert!(s.over_dongle && s.config.transport == Transport::Wireless);
    assert_eq!((s.config.ssid.as_str(), s.config.channel, s.config.wifi_iface.as_str()), ("car", 44, "en5"));
    assert_eq!((s.identity.name.as_str(), s.identity.bt_mac), ("LIVI", [9; 6]));
    let (cp, id) = cp_config(&empty_env());
    let s = seam("", "dongle", cp, id, &report);
    assert!(!s.over_dongle && s.config.transport == Transport::Wired);
    assert_eq!(link_json(true), "{\"type\":\"link\",\"up\":true}");
    assert_eq!(coprocessor_line(2), "[helperd] MFi coprocessor: auth protocol major 2 — 2.0 (RSA, SHA-1)");
    assert!(identify(false, Some(2), false) == Identified::Lost);
    assert!(identify(true, Some(2), false) == Identified::Known(2));
    assert!(identify(true, None, true) == Identified::Wait { report: false });
}

#[test]
fn wired_phones_come_go_and_are_given_up() {
    let mut w = Watch::new();
    let both = strings(&["AAAAAAAAAA", "B"]);
    let s = w.scan(&both);
    assert_eq!(s.attempt, both);
    assert!(s.unplugged.is_empty());
    w.opened("AAAAAAAAAA");
    for n in 1..=3 {
        assert_eq!(w.refused("B"), (n, n == 3));
    }
    let s = w.scan(&both);
    assert!(s.attempt.is_empty());
    let s = w.scan(&strings(&["AAAAAAAAAA"]));
    assert!(s.unplugged.is_empty());
    let s = w.scan(&strings(&["B"]));
    assert_eq!(s.unplugged, strings(&["AAAAAAAAAA"]));
    assert_eq!(s.attempt, strings(&["B"]));
    w.opened("B");
    assert_eq!(w.link_gone(), strings(&["B"]));
    assert!(w.running.is_empty());
    w.opened("C");
    w.ended("C");
    assert!(w.running.is_empty());
    assert_eq!(short("AAAAAAAAAA"), "AAAAAAAA");
    assert_eq!(short("B"), "B");
    assert_eq!(gone_json("X"), "{\"type\":\"device-gone\",\"src\":\"carkit\",\"usbUdid\":\"X\"}");
    assert_eq!(refused_line("X", 1, "e"), "[wired] X: usbmux failed: e");
    assert_eq!(refused_line("X", 3, "e"), "[wired] X: giving up after 3 attempts (e) — ignored until replug");
}

#[test]
fn phones_on_a_port_get_one_attempt() {
    let mut p = Plugged::new();
    assert_eq!(p.scan(&strings(&["A", "B", "A"]), &vec![]), (vec![], strings(&["A", "B"])));
    assert_eq!(p.scan(&strings(&["A", "B"]), &vec![]), (vec![], vec![]));
    assert_eq!(p.scan(&strings(&["A"]), &strings(&["A"])), (strings(&["B"]), strings(&["A"])));
    assert_eq!(p.link_gone(), strings(&["A"]));
    assert!(p.active.is_empty());
}

#[test]
fn the_network_function_is_found_here_or_there() {
    let bridge = || NcmBridge { ifname: "usb0".into(), bridged: false };
    assert_eq!(LocalNcm::choose_for(true, Some("en5".into()), Ok(bridge())).ifname(), Some("en5".to_owned()));
    assert_eq!(LocalNcm::choose_for(false, Some("en5".into()), Ok(bridge())).ifname(), Some("usb0".to_owned()));
    assert_eq!(LocalNcm::choose_for(false, Some("en5".into()), Err("e".into())).ifname(), None);
    let alt = |number, class, subclass, eps: &[(u8, bool)]| AltSetting {
        number,
        class,
        subclass,
        endpoints: eps.iter().map(|(address, bulk)| EndpointInfo { address: *address, bulk: *bulk }).collect(),
    };
    let alts = vec![
        alt(1, 0x0a, 0, &[(0x81, true), (0x01, true)]),
        alt(2, 0x02, 0x0d, &[(0x82, false)]),
        alt(3, 0x0a, 0, &[]),
        alt(3, 0x0a, 0, &[(0x83, true), (0x84, false), (0x03, true)]),
    ];
    assert!(find_ncm_function(&alts) == Some(NcmFunction { control: 2, data: 3, ep_in: 0x83, ep_out: 0x03 }));
    assert!(find_ncm_function(&vec![]).is_none());
    assert_eq!(tap_name(4), "cpusb4");
}

#[test]
fn the_host_address_is_named_by_a_descriptor() {
    let raw = [9, 4, 1, 0, 0, 0, 0, 0, 0, 5, 0x24, 0x0f, 6, 0, 9, 4, 2, 0, 0, 0, 0, 0, 0, 5, 0x24, 0x0f, 7, 0];
    assert!(is_walkable(&raw, 2));
    assert_eq!(mac_string_index(&raw, 2), 7);
    assert_eq!(mac_string_index(&raw, 1), 6);
    assert_eq!(mac_string_index(&raw, 3), 0);
    assert!(!is_walkable(&[9, 4], 1));
    let other = [9, 4, 1, 0, 0, 0, 0, 0, 0, 5, 0x24];
    assert!(is_walkable(&other, 2) && !is_walkable(&other, 1));
    assert_eq!(mac_string_index(&other, 2), 0);
    let cut = [9, 4, 1, 0, 0, 0, 0, 0, 0, 5, 0x24, 0x06];
    assert!(is_walkable(&cut, 1));
    assert_eq!(mac_string_index(&cut, 1), 0);
    assert!(!is_walkable(&[9, 4, 1, 0, 0, 0, 0, 0, 0, 5, 0x24, 0x0f], 1));
    let mut s = vec![26, 3];
    for c in "0A1B2C3D4E5F".chars() {
        s.extend_from_slice(&(c as u16).to_le_bytes());
    }
    assert_eq!(host_mac(&s), Some("0a:1b:2c:3d:4e:5f".to_owned()));
    s[1] = 4;
    assert_eq!(host_mac(&s), None);
    assert_eq!(host_mac(&[4, 3, 0x00, 0xd8]), None);
    assert_eq!(pair_up("0A1B"), None);
    assert_eq!(pair_up("aéaaaaaaaaa"), None);
    assert_eq!(profile_name("0a:1b\n"), ("0A:1B".to_owned(), "livi-carkit-0A1B".to_owned()));
}

fn discover(kind: u8, mac: u8) -> Vec<u8> {
    let mut p = vec![0u8; 240];
    p[0] = 1;
    p[4..8].copy_from_slice(&[1, 2, 3, 4]);
    p[10] = 0x80;
    p[28..34].copy_from_slice(&[mac; 6]);
    p[236..240].copy_from_slice(&[99, 130, 83, 99]);
    p.extend_from_slice(&[0, 12, 1, 0x61, 53, 1, kind, 255, 53, 1, 9]);
    p
}

#[test]
fn a_client_is_offered_and_keeps_its_address() {
    let mut l = Leases::new(100, 101);
    let r = serve_packet(&mut l, [10, 10, 10, 1], &discover(1, 7)).unwrap();
    assert_eq!((r.kind, r.address, r.client, r.to), (2, [10, 10, 10, 100], [7; 6], [10, 10, 10, 255]));
    assert_eq!((r.data.len(), r.port), (300, 68));
    assert_eq!(&r.data[..12], &[2, 1, 6, 0, 1, 2, 3, 4, 0, 0, 0x80, 0]);
    assert_eq!(&r.data[16..24], &[10, 10, 10, 100, 10, 10, 10, 1]);
    assert_eq!(&r.data[28..34], &[7; 6]);
    assert_eq!(&r.data[240..243], &[53, 1, 2]);
    assert_eq!(&r.data[261..273], b"\x0c\x09livi-link\xff");
    let ack = serve_packet(&mut l, [10, 10, 10, 1], &discover(3, 7)).unwrap();
    assert_eq!((ack.kind, ack.address), (5, [10, 10, 10, 100]));
    assert_eq!(serve_packet(&mut l, [10, 10, 10, 1], &discover(1, 8)).unwrap().address[3], 101);
    assert_eq!(serve_packet(&mut l, [10, 10, 10, 1], &discover(1, 9)).unwrap().address[3], 100);
    assert_eq!(l.assign([8; 6]), 101);
}

#[test]
fn packets_that_ask_nothing_are_passed_over() {
    let mut l = Leases::new(5, 3);
    let server = [10, 0, 0, 1];
    assert!(serve_packet(&mut l, server, &discover(1, 1)[..239]).is_none());
    assert!(serve_packet(&mut l, server, &discover(4, 1)).is_none());
    let mut p = discover(1, 1);
    p[0] = 2;
    assert!(serve_packet(&mut l, server, &p).is_none());
    p[0] = 1;
    p[236] = 0;
    assert!(serve_packet(&mut l, server, &p).is_none());
    assert!(l.entries.is_empty());
    assert_eq!((l.assign([1; 6]), l.assign([2; 6])), (5, 5));
    let mut cut = discover(1, 1);
    cut.truncate(240);
    cut.extend_from_slice(&[53, 1, 3, 53, 5, 1]);
    assert_eq!(message_type(&cut), 3);
}

#[test]
fn the_network_settings_have_defaults() {
    let s = net_settings(&vec![]);
    assert_eq!((s.iface.as_str(), s.server, s.pool_start, s.pool_end, s.hostname.as_str()), ("usb0", [10, 10, 10, 1], 100, 149, "livi-link"));
    let s = net_settings(&strings(&["netd", "eth0", "192.168.1.9", "+7", "300", "h"]));
    assert_eq!((s.iface.as_str(), s.server, s.pool_start, s.pool_end, s.hostname.as_str()), ("eth0", [192, 168, 1, 9], 7, 149, "h"));
    for bad in ["1.2.3", "1.2.3.4.5", "01.2.3.4", "1.2.3.256", "1..3.4", "+1.2.3.4", "1.2.3.0004"] {
        assert_eq!(read_dotted(bad), None);
    }
    assert_eq!(read_dotted("0.0.255.10"), Some([0, 0, 255, 10]));
}

fn dark() -> LedState {
    LedState { client: false, bt_paging: false, bt_connected: false, iap2_active: false, flash_mode: false, wbtest: false }
}

#[test]
fn the_light_is_set_up_by_a_file() {
    assert_eq!(LedConfig::load(None), LedConfig::default());
    let cfg = LedConfig::load(Some(
        "# status_color = 1,2,3\n\nstatus_color = \"#10a0FF\"\nbrightness = 250\nwhite_balance=1, 2,3\nbrightness = x\nother\n",
    ));
    assert_eq!(cfg, LedConfig { status: Rgb(0x10, 0xa0, 0xff), brightness_pct: 100, wb: Rgb(1, 2, 3) });
    assert_eq!(parse_rgb("#12345"), None);
    assert_eq!(parse_rgb("1,2"), None);
    assert_eq!(parse_rgb("1,2,256"), None);
    assert_eq!(parse_rgb(" 1 , 2,3"), Some(Rgb(1, 2, 3)));
}

#[test]
fn the_light_shows_the_highest_state() {
    let cfg = LedConfig { status: Rgb(200, 100, 50), brightness_pct: 100, wb: Rgb(255, 255, 255) };
    let mut s = dark();
    assert_eq!(render(&s, &cfg, 0), Rgb(200, 100, 50));
    assert_eq!(render(&s, &cfg, 12), Rgb(0, 0, 0));
    s.client = true;
    assert_eq!(render(&s, &cfg, 12), Rgb(200, 100, 50));
    s.bt_paging = true;
    assert_eq!(render(&s, &cfg, 3), Rgb(0, 0, 255));
    assert_eq!(render(&s, &cfg, 4), Rgb(200, 100, 50));
    s.bt_connected = true;
    assert_eq!(render(&s, &cfg, 4), Rgb(0, 0, 255));
    s.iap2_active = true;
    assert_eq!(render(&s, &cfg, 4), Rgb(0, 0, 0));
    s.flash_mode = true;
    assert_eq!(render(&s, &cfg, 0), Rgb(255, 0, 0));
    assert_eq!(render(&s, &cfg, 12), Rgb(0, 0, 255));
    s.wbtest = true;
    assert_eq!(render(&s, &LedConfig { brightness_pct: 50, wb: Rgb(255, 190, 130), ..cfg }, 0), Rgb(127, 94, 64));
    assert_eq!(render(&s, &LedConfig { brightness_pct: 0, ..cfg }, 0), Rgb(0, 0, 0));
}

#[test]
fn a_pixel_is_written_between_gaps() {
    assert_eq!(encode_byte(0b1000_0001), [0xe8, 0x88, 0x88, 0x8e]);
    let p = encode_pixel(Rgb(255, 0, 1));
    assert_eq!(&p[..4], &[0x88; 4]);
    assert_eq!(&p[4..8], &[0xee; 4]);
    assert_eq!(&p[8..], &[0x88, 0x88, 0x88, 0x8e]);
    let f = pixel_frame(Rgb(255, 0, 1));
    assert_eq!(f.len(), 62);
    assert_eq!(&f[25..37], p.as_slice());
    assert_eq!(_iow(b'k', 4, 4), 0x4004_6b04);
}

#[test]
fn stations_are_seen_behind_their_port() {
    let mut fdb = vec![0u8; 35];
    fdb[16 + 6] = 3;
    assert!(wifi_client(" 0x3\n", &fdb));
    assert!(!wifi_client("0x4", &fdb));
    fdb[16 + 7] = 1;
    assert!(!wifi_client("3", &fdb));
    assert!(!wifi_client("x", &fdb));
}

#[test]
fn the_two_lights_blink_and_hold() {
    assert_eq!(lights(0, true, false, false, false), (true, false));
    assert_eq!(lights(4, true, true, true, true), (false, true));
    assert_eq!(lights(4, false, true, false, false), (false, true));
    assert_eq!(lights(4, false, false, true, true), (true, false));
    assert_eq!(lights(0, false, false, true, false), (true, true));
    assert!(counts_clients(16) && !counts_clients(17));
    assert_eq!((pin_value(true), pin_value(false)), ("0", "1"));
}

struct Chip {
    major: u8,
    cert: usize,
}

impl AuthCoprocessor for Chip {
    fn protocol_major(&mut self) -> Result<u8, MfiError> {
        Ok(self.major)
    }
    fn read_certificate(&mut self) -> Result<Vec<u8>, MfiError> {
        Ok(vec![5; self.cert])
    }
    fn generate_challenge_response(&mut self, challenge: &[u8]) -> Result<Vec<u8>, MfiError> {
        if challenge == [0] { Err(MfiError::Timeout("x".into())) } else { Ok(challenge.to_vec()) }
    }
}

#[test]
fn a_coprocessor_is_served_on_the_wire() {
    let mut chip = Chip { major: 2, cert: 4 };
    let (ask, n) = next_request(&[1, 9]);
    assert_eq!(n, 1);
    assert_eq!(serve(&mut chip, &ask).reply, Some(vec![0, 0, 4, 5, 5, 5, 5]));
    let (ask, n) = next_request(&[2, 0, 2, 7, 8, 1]);
    assert_eq!(n, 5);
    assert_eq!(serve(&mut chip, &ask).reply, Some(vec![0, 0, 2, 7, 8]));
    let (ask, _) = next_request(&[2, 0, 1, 0]);
    let s = serve(&mut chip, &ask);
    assert_eq!((s.reply, s.open), (Some(vec![1, 0, 0]), true));
    let (ask, n) = next_request(&[3]);
    assert_eq!(n, 1);
    assert_eq!(serve(&mut chip, &ask).reply, Some(vec![0, 0, 1, 2]));
    let (ask, n) = next_request(&[2, 0, 129]);
    assert_eq!(n, 3);
    let s = serve(&mut chip, &ask);
    assert_eq!((s.reply, s.open), (Some(vec![1, 0, 0]), false));
    for short in [&[][..], &[2], &[2, 0], &[2, 0, 2, 1]] {
        assert!(matches!(next_request(short), (Ask::More, 0)));
    }
    let s = serve(&mut chip, &next_request(&[9]).0);
    assert!(s.reply.is_none() && !s.open);
    let s = serve(&mut NoCoprocessor, &Ask::Generation);
    assert_eq!(s.reply, Some(respond(1, &[])));
}

#[test]
fn the_generation_falls_back_to_the_certificate() {
    assert_eq!(protocol_major(&mut Chip { major: 3, cert: 900 }), Some(3));
    assert_eq!(protocol_major(&mut Chip { major: 0xff, cert: 767 }), Some(3));
    assert_eq!(protocol_major(&mut Chip { major: 0xff, cert: 768 }), Some(2));
    assert_eq!(protocol_major(&mut NoCoprocessor), None);
    assert_eq!(generation(&Err(MfiError::Io("e".into())), Some(1)), Some(3));
}

#[test]
fn a_challenge_is_written_to_the_registers() {
    let plan = challenge_plan(&[1, 2, 3]).ok().unwrap();
    assert_eq!(plan, vec![(0x20, vec![0, 3]), (0x21, vec![1, 2, 3]), (0x10, vec![1])]);
    assert!(matches!(challenge_plan(&[]), Err(MfiError::ChallengeSize(0))));
    assert!(matches!(challenge_plan(&[0; 129]), Err(MfiError::ChallengeSize(129))));
    assert_eq!(write_frame(0x21, &[4]), vec![0x21, 4]);
    assert!(poll(Some(0x10), true) == Poll::Done);
    assert!(poll(Some(1), true) == Poll::Failed);
    assert!(poll(None, false) == Poll::Wait);
}

#[test]
fn failures_are_put_in_words() {
    assert_eq!(MfiError::Timeout("read".into()).text(), "timeout during read");
    assert_eq!(MfiError::ChallengeSize(0).text(), "challenge must be 1..=128 bytes, got 0");
    assert_eq!(MfiError::AuthFailed { error_code: Some(0xa) }.text(), "auth failed (error code 0x0A)");
    assert_eq!(MfiError::AuthFailed { error_code: None }.text(), "auth failed (error unreadable)");
    assert_eq!(MfiError::NoChip { probed: vec![0x10, 0x1ab] }.text(), "no coprocessor answered at 0x10/0x1AB");
    assert_eq!(NoCoprocessor.read_certificate().err().unwrap().text(), "i2c io: no MFi coprocessor");
}

#[test]
fn a_probe_is_told_where_to_look() {
    let of = |list: &[&str]| parse(&strings(list));
    assert!(matches!(of(&[]), Ok(Mode::Local { bus: 2, power_gpio: -1 })));
    assert!(matches!(of(&["--bus", "5", "--power-gpio", "-3"]), Ok(Mode::Local { bus: 5, power_gpio: -3 })));
    assert!(matches!(of(&["--bus", "x", "--power-gpio", "7", "--no-power"]), Ok(Mode::Local { bus: 2, power_gpio: -1 })));
    assert!(matches!(of(&["--remote", "h"]), Ok(Mode::Remote { addr }) if addr == "h:5000"));
    assert!(matches!(of(&["--remote", "h:1"]), Ok(Mode::Remote { addr }) if addr == "h:1"));
    assert!(matches!(of(&["--dongle"]), Ok(Mode::Remote { addr }) if addr == "livi-link.local:5000"));
    assert!(matches!(of(&["--dongle", "--remote"]), Ok(Mode::Local { .. })));
    assert_eq!(of(&["-x"]).err(), Some("unknown argument: -x".to_owned()));
    assert_eq!((probe_challenge(3).len(), probe_challenge(2)), (32, vec![0xAB; 20]));
    assert_eq!((bus_of(Some("/dev/i2c-4")), bus_of(Some("7")), bus_of(Some("x")), bus_of(None)), (4, 7, 1, 1));
}

#[test]
fn a_session_over_the_dongle_needs_its_access_point() {
    let (cp, id) = cp_config(&empty_env());
    let report = DongleReport { ap_mac: Some("m".into()), ssid: None, channel: Some("x".into()), iface: None, bt_mac: None };
    assert!(dongle_session(false, &cp, &id, [7; 6], &report).is_none());
    let (live, who) = dongle_session(true, &cp, &id, [7; 6], &report).unwrap();
    assert_eq!((live.ap_mac.as_deref(), live.ssid.as_str(), live.channel), (Some("m"), "LIVI", 36));
    assert_eq!((live.wifi_iface.as_str(), who.bt_mac), ("", [7; 6]));
    assert!(live.transport == Transport::Wireless);
    assert_eq!(wired_config(live, Some("en5".into())).av_iface.as_deref(), Some("en5"));
    assert_eq!(wired_config(cp, None).av_iface, None);
}

#[test]
fn the_kernel_s_own_interface_is_taken() {
    let entry = |name: &str, driver: Option<&str>, device: Option<&str>| NetEntry {
        name: name.into(),
        driver: driver.map(String::from),
        device: device.map(String::from),
    };
    let list = vec![
        entry("lo", None, None),
        entry("a", Some("cdc_ether"), Some("/sys/usb/1-1/1-1:1.0")),
        entry("b", Some("cdc_ncm"), Some("/sys/usb/1-10/1-10:1.0")),
        entry("c", Some("cdc_ncm"), Some("/sys/usb/1-1/1-1:1.2")),
    ];
    let found = kernel_ncm_iface(&list, "/sys/usb/1-1").unwrap();
    assert_eq!((found.ifname.as_str(), found.bridged), ("c", false));
    assert!(kernel_ncm_iface(&list, "/sys/usb/1-2").is_none());
    assert_eq!(kernel_ncm_iface(&list, "/").unwrap().ifname, "b");
    for (path, root) in [("/sys", "/"), ("/sys/a", "/sys/"), ("/sys/", "/sys"), ("/a//b/./c", "/a/b"), ("x", ""), ("./x", ".")] {
        assert!(lies_below(path, root) && std::path::Path::new(path).starts_with(root), "{path} under {root}");
    }
    for (path, root) in [("/sysfs", "/sys"), ("sys", "/"), ("/a", "/a/b"), ("./x", "x"), ("x", ".")] {
        assert!(!lies_below(path, root) && !std::path::Path::new(path).starts_with(root), "{path} under {root}");
    }
}

#[test]
fn a_device_seen_again_has_one_session() {
    let mut p = Phones::new();
    assert!(p.seen(1, "S", true, false) == Seen::Serve);
    assert!(p.gone(1, 0).cancel);
    assert!(p.seen(1, "S", true, false) == Seen::Serve);
    assert_eq!(p.restart(""), vec![1]);
    assert_eq!(p.restart("S"), vec![1]);
    p.served(1);
    assert!(p.restart("").is_empty());
}

#[test]
fn a_serial_that_is_there_twice_is_gone_once() {
    let mut w = Watch::new();
    let s = w.scan(&strings(&["A", "A"]));
    assert_eq!(s.attempt, strings(&["A", "A"]));
    w.opened("A");
    w.opened("A");
    assert_eq!(w.scan(&vec![]).unplugged, strings(&["A"]));
    let mut w = Watch::new();
    w.refused("A");
    w.refused("A");
    let s = w.scan(&strings(&["A", "A"]));
    assert_eq!(s.attempt.len(), 2);
    assert!(w.may_try("A"));
    assert_eq!(w.refused("A"), (3, true));
    assert!(!w.may_try("A"));
    assert_eq!(w.refused("A"), (4, true));
}

#[test]
fn the_access_point_is_the_dongle_s_or_our_own() {
    let base = AaConfig {
        ssid: "b".into(),
        passphrase: "p".into(),
        channel: 36,
        wifi_iface: "wlan0".into(),
        ap_ip: "10.0.0.1".into(),
        port: 5288,
    };
    let dongle = DongleAp { ssid: Some("d".into()), channel: Some("44".into()), address: Some("10.10.10.2".into()), mac: None };
    let own = OwnAp { ssid: None, channel: Some(6), mac: Some("AA:BB".into()) };
    let (live, bssid) = access_point(&base, "dongle", "dongle", "q", &dongle, &own);
    assert_eq!((live.ssid.as_str(), live.channel, live.ap_ip.as_str(), bssid.as_str()), ("d", 44, "10.10.10.2", ""));
    assert_eq!(live.wifi_iface, "wlan0");
    let (live, bssid) = access_point(&base, "wlan1", "dongle", "q", &dongle, &own);
    assert_eq!((live.ssid.as_str(), live.channel, live.ap_ip.as_str(), bssid.as_str()), ("b", 6, "10.0.0.1", "AA:BB"));
    assert_eq!(live.wifi_iface, "wlan1");
    let told = ap_info(&live, &bssid);
    assert_eq!((told.ssid.as_str(), told.passphrase.as_str(), told.bssid.as_str()), ("b", "q", "aa:bb"));
    assert!(greeting(&live) == (Exchange::Asked, 6));
    let there = invitation(&live);
    assert_eq!((there.address.as_str(), there.port), ("10.0.0.1", 5288));
}

#[test]
fn a_phone_is_not_invited_while_it_projects_over_usb() {
    let mut w = WiredPhones::new();
    w.set(strings(&["aa:bb", "inst"]));
    let id = |i: &str, s: &str| PhoneId { instance_id: i.into(), serial: s.into() };
    let version = Some(Wpp::VersionResponse);
    let first = |m, mac: &str, id: &PhoneId| handshake(Exchange::Asked, m, &w, mac, id, &[]);
    let (next, doing) = first(version, "AA:BB", &id("", ""));
    assert!(doing.report && !doing.invite && next == Exchange::Over);
    let (next, doing) = handshake(next, Some(Wpp::InfoRequest), &w, "AA:BB", &id("", ""), &[]);
    assert!(next == Exchange::Over && !doing.invite && doing.also.is_none());
    assert!(!first(version, "cc", &id("INST", "")).1.invite);
    assert!(first(version, "cc", &id("", "x")).1.invite);
    assert!(first(Some(Wpp::Ping), "AA:BB", &id("", "")).1.invite);
    assert!(is_projecting(&w, "", &id("", "aa:BB")) && !is_projecting(&w, "", &id("", "")));
}

#[test]
fn tries_run_out() {
    let mut left = 2;
    assert!(next_try(&mut left) && next_try(&mut left) && !next_try(&mut left));
    assert_eq!(left, 0);
    assert_eq!((CONTROLLER_TRIES, FIND_TRIES, SHELL_TRIES, TARGET_TRIES), (120, 20, 60, 10));
}

#[test]
fn a_hiccup_on_a_present_link_retires_nobody() {
    let mut w = Watch::new();
    let s = w.round(true, &Some(strings(&["A"])));
    assert_eq!(s.attempt, strings(&["A"]));
    w.opened("A");
    let s = w.round(true, &None);
    assert!(s.unplugged.is_empty() && s.attempt.is_empty());
    assert_eq!(w.running, strings(&["A"]));
    let s = w.round(false, &Some(strings(&["A"])));
    assert_eq!(s.unplugged, strings(&["A"]));
    assert!(s.attempt.is_empty() && w.running.is_empty());
    let mut p = Plugged::new();
    assert_eq!(p.round(true, &Some(strings(&["A"])), &vec![]), (vec![], strings(&["A"])));
    assert_eq!(p.round(true, &None, &strings(&["A"])), (vec![], vec![]));
    assert_eq!(p.round(false, &None, &vec![]), (strings(&["A"]), vec![]));
    assert!(p.active.is_empty());
    assert_eq!((MAX_OUTGOING, CONTROL_VERSION, ZERO_ACK), (4, 2, true));
}

#[test]
fn an_accessory_left_over_is_released_before_it_is_served() {
    assert!(accessory_start(true) == Accessory::Release && accessory_start(false) == Accessory::Await);
    assert!(accessory_step(Accessory::Release, true) == Accessory::Done);
    assert!(accessory_step(Accessory::Release, false) == Accessory::Await);
    assert!(accessory_step(Accessory::Await, true) == Accessory::Serve);
    assert!(accessory_step(Accessory::Await, false) == Accessory::Done);
    assert!(accessory_step(Accessory::Serve, false) == Accessory::Done);
}

#[test]
fn a_port_is_kept_whole_and_published_by_its_lower_half() {
    let mut env = empty_env();
    env.airplay_port = Some("70000".into());
    let (cp, _) = cp_config(&env);
    assert_eq!((cp.airplay_port, published_port(&cp)), (70000, 4464));
    env.airplay_port = Some("4294967296".into());
    assert_eq!(cp_config(&env).0.airplay_port, 7000);
}

#[test]
fn a_refused_packet_does_not_end_the_tunnel() {
    assert!(written(true, None) == Written::Sent);
    assert!(written(false, Some(22)) == Written::Refused);
    assert!(written(false, Some(5)) == Written::Broken);
    assert!(written(false, None) == Written::Broken);
}
